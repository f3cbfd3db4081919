use vstd::prelude::*;
use vstd::utf8::*;
use vstd::slice::slice_subrange;
use crate::errors::FixSerializeError;
use crate::fix_message_item::FixMessageItem;
use crate::scan::find_from;
use crate::text::{lemma_utf8_cut_at_ascii, str_from_utf8};
use crate::utils::{FIX_DELIMITER, FIX_EQUALS, FIX_TEXT_DELIMITER};
use crate::wire::{
    after_first_field, first_field, is_item, item_key, item_value, lemma_fields_step,
    lemma_first_index, strip_end,
};

verus! {

/// A single pass over the fields of a buffer, in wire order. The textual
/// mode ends a field at `|`, the binary mode at the delimiter byte.
pub struct FixMessageIterator<'s> {
    data: &'s [u8],
    current_index: usize,
    delimiter: u8,
}

/// True when `field` can be handed out as an item of a buffer whose fields
/// end in `d`: it holds a `=`, and in the binary mode its tag and its value
/// are well-formed UTF-8. (A field of a text is always well-formed.)
pub open spec fn readable(field: Seq<u8>, d: u8) -> bool {
    &&& is_item(field)
    &&& d != FIX_TEXT_DELIMITER ==> valid_utf8(item_key(field)) && valid_utf8(item_value(field))
}

impl<'s> FixMessageIterator<'s> {
    #[verifier::type_invariant]
    spec fn well_formed(self) -> bool {
        &&& self.current_index <= self.data@.len()
        &&& self.delimiter == FIX_DELIMITER || self.delimiter == FIX_TEXT_DELIMITER
        &&& self.delimiter == FIX_TEXT_DELIMITER ==> valid_utf8(
            self.data@.subrange(self.current_index as int, self.data@.len() as int),
        )
    }

    /// The bytes that the pass has not reached yet.
    pub closed spec fn remaining(&self) -> Seq<u8> {
        self.data@.subrange(self.current_index as int, self.data@.len() as int)
    }

    /// The byte that ends a field.
    pub closed spec fn delimiter(&self) -> u8 {
        self.delimiter
    }

    /// A pass over a text whose fields end in `|`.
    pub fn from_str(data: &'s str) -> (r: Self)
        ensures
            r.remaining() == encode_utf8(data@),
            r.delimiter() == FIX_TEXT_DELIMITER,
    {
        let bytes: &'s [u8] = data.as_bytes();
        proof {
            encode_utf8_valid_utf8(data@);
            assert(bytes@.subrange(0, bytes@.len() as int) =~= bytes@);
        }
        Self { data: bytes, current_index: 0, delimiter: FIX_TEXT_DELIMITER }
    }

    /// A pass over bytes whose fields end in the delimiter byte.
    pub fn from_slice(data: &'s [u8]) -> (r: Self)
        ensures
            r.remaining() == data@,
            r.delimiter() == FIX_DELIMITER,
    {
        proof {
            assert(data@.subrange(0, data@.len() as int) =~= data@);
        }
        Self { data, current_index: 0, delimiter: FIX_DELIMITER }
    }

    /// Moves past the next field and returns its bytes, without the
    /// delimiter. At the end of the buffer there is nothing more; where the
    /// buffer ends before the delimiter, the pass fails and is over.
    pub(crate) fn next_field(&mut self) -> (r: Option<Result<&'s [u8], FixSerializeError>>)
        ensures
            final(self).delimiter() == old(self).delimiter(),
            match r {
                None => old(self).remaining().len() == 0 && final(self).remaining() == old(
                    self,
                ).remaining(),
                Some(Err(e)) => {
                    &&& e is FixDelimiterNotFound
                    &&& old(self).remaining().len() > 0
                    &&& !old(self).remaining().contains(old(self).delimiter())
                    &&& final(self).remaining().len() == 0
                },
                Some(Ok(field)) => {
                    &&& old(self).remaining().contains(old(self).delimiter())
                    &&& field@ == first_field(old(self).remaining(), old(self).delimiter())
                    &&& final(self).remaining() == after_first_field(
                        old(self).remaining(),
                        old(self).delimiter(),
                    )
                    &&& old(self).delimiter() == FIX_TEXT_DELIMITER ==> valid_utf8(field@)
                },
            },
    {
        proof {
            use_type_invariant(&*self);
            lemma_first_index(self.remaining(), self.delimiter);
        }
        let len: usize = self.data.len();
        if self.current_index >= len {
            return None;
        }
        let start: usize = self.current_index;
        let end: usize = find_from(self.data, start, self.delimiter);
        if end >= len {
            proof {
                assert(self.data@.subrange(len as int, len as int) =~= Seq::<u8>::empty());
            }
            self.current_index = len;
            return Some(Err(FixSerializeError::FixDelimiterNotFound));
        }
        let item: &'s [u8] = slice_subrange(self.data, start, end);
        proof {
            let rest = old(self).remaining();
            assert(item@ =~= first_field(rest, self.delimiter));
            assert(self.data@.subrange(end + 1, len as int) =~= after_first_field(
                rest,
                self.delimiter,
            ));
            if self.delimiter == FIX_TEXT_DELIMITER {
                lemma_utf8_cut_at_ascii(rest, end - start);
            }
        }
        self.current_index = end + 1;
        Some(Ok(item))
    }

    /// The next item of the pass. At the end of the buffer there is none;
    /// where the buffer ends before the delimiter, the pass fails with
    /// `FixDelimiterNotFound` and is over.
    pub fn next(&mut self) -> (r: Option<Result<FixMessageItem<'s>, FixSerializeError>>)
        requires
            old(self).remaining().contains(old(self).delimiter()) ==> readable(
                first_field(old(self).remaining(), old(self).delimiter()),
                old(self).delimiter(),
            ),
        ensures
            final(self).delimiter() == old(self).delimiter(),
            match r {
                None => old(self).remaining().len() == 0 && final(self).remaining() == old(
                    self,
                ).remaining(),
                Some(Err(e)) => {
                    &&& e is FixDelimiterNotFound
                    &&& old(self).remaining().len() > 0
                    &&& !old(self).remaining().contains(old(self).delimiter())
                    &&& final(self).remaining().len() == 0
                },
                Some(Ok(item)) => {
                    &&& old(self).remaining().contains(old(self).delimiter())
                    &&& encode_utf8(item.key@) == item_key(
                        first_field(old(self).remaining(), old(self).delimiter()),
                    )
                    &&& encode_utf8(item.value@) == item_value(
                        first_field(old(self).remaining(), old(self).delimiter()),
                    )
                    &&& final(self).remaining() == after_first_field(
                        old(self).remaining(),
                        old(self).delimiter(),
                    )
                },
            },
    {
        proof {
            use_type_invariant(&*self);
        }
        let text: bool = self.delimiter == FIX_TEXT_DELIMITER;
        match self.next_field() {
            None => None,
            Some(Err(e)) => Some(Err(e)),
            Some(Ok(field)) => {
                proof {
                    lemma_fields_step(old(self).remaining(), old(self).delimiter());
                    lemma_value_ends(field@, old(self).delimiter());
                }
                let result = if text {
                    FixMessageItem::from_str(str_from_utf8(field).unwrap())
                } else {
                    FixMessageItem::from_slice(field)
                };
                Some(Ok(result))
            },
        }
    }
}

/// The value of a field that does not hold the byte `d` does not end in it.
pub proof fn lemma_value_ends(field: Seq<u8>, d: u8)
    requires
        !field.contains(d),
    ensures
        strip_end(item_value(field), d) == item_value(field),
{
    lemma_first_index(field, FIX_EQUALS);
    let value = item_value(field);
    if value.len() > 0 && value.last() == d {
        assert(field[field.len() - 1] == d);
    }
}

} // verus!
