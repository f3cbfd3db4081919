use vstd::prelude::*;
use vstd::utf8::*;
use vstd::slice::slice_subrange;
use crate::scan::find_from;
use crate::text::{lemma_utf8_cut_at_ascii, str_from_utf8};
use crate::utils::{FIX_DELIMITER, FIX_EQUALS, FIX_TEXT_DELIMITER};
use crate::wire::{first_index, is_item, item_key, item_value, lemma_first_index, strip_end};

verus! {

/// One field of a message: its tag and its value, borrowed from the buffer
/// that holds the message.
#[derive(Debug)]
pub struct FixMessageItem<'s> {
    pub key: &'s str,
    pub value: &'s str,
}

impl<'s> FixMessageItem<'s> {
    /// Divides the text `key=value` at its first `=`. A `|` at the very end
    /// is not part of the value.
    pub fn from_str(src: &'s str) -> (r: Self)
        requires
            is_item(encode_utf8(src@)),
        ensures
            encode_utf8(r.key@) == item_key(encode_utf8(src@)),
            encode_utf8(r.value@) == strip_end(
                item_value(encode_utf8(src@)),
                FIX_TEXT_DELIMITER,
            ),
    {
        let bytes: &'s [u8] = src.as_bytes();
        proof {
            encode_utf8_valid_utf8(src@);
            lemma_first_index(bytes@, FIX_EQUALS);
            lemma_utf8_cut_at_ascii(bytes@, first_index(bytes@, FIX_EQUALS));
            let value = item_value(bytes@);
            if value.len() > 0 && value.last() == FIX_TEXT_DELIMITER {
                lemma_utf8_cut_at_ascii(value, value.len() - 1);
                assert(value.subrange(0, value.len() - 1) =~= value.drop_last());
            }
        }
        Self::split(bytes, FIX_TEXT_DELIMITER)
    }

    /// Divides the bytes `key=value` at their first `=`. A delimiter byte at
    /// the very end is not part of the value. Tag and value must be
    /// well-formed UTF-8.
    pub fn from_slice(src: &'s [u8]) -> (r: Self)
        requires
            is_item(src@),
            valid_utf8(item_key(src@)),
            valid_utf8(strip_end(item_value(src@), FIX_DELIMITER)),
        ensures
            encode_utf8(r.key@) == item_key(src@),
            encode_utf8(r.value@) == strip_end(item_value(src@), FIX_DELIMITER),
    {
        Self::split(src, FIX_DELIMITER)
    }

    fn split(src: &'s [u8], ending: u8) -> (r: Self)
        requires
            is_item(src@),
            valid_utf8(item_key(src@)),
            valid_utf8(strip_end(item_value(src@), ending)),
        ensures
            encode_utf8(r.key@) == item_key(src@),
            encode_utf8(r.value@) == strip_end(item_value(src@), ending),
    {
        let index: usize = find_index(src).unwrap();
        let len: usize = src.len();
        let key: &'s [u8] = slice_subrange(src, 0, index);
        let mut value: &'s [u8] = slice_subrange(src, index + 1, len);
        assert(value@ == item_value(src@));
        if value.len() > 0 && value[value.len() - 1] == ending {
            value = slice_subrange(value, 0, value.len() - 1);
            assert(value@ =~= item_value(src@).drop_last());
        }
        Self { key: str_from_utf8(key).unwrap(), value: str_from_utf8(value).unwrap() }
    }
}

/// Index of the first `=` in `src`.
fn find_index(src: &[u8]) -> (r: Option<usize>)
    ensures
        match r {
            Some(i) => is_item(src@) && i == first_index(src@, FIX_EQUALS) && i < src@.len(),
            None => !is_item(src@),
        },
{
    let index: usize = find_from(src, 0, FIX_EQUALS);
    proof {
        assert(src@.subrange(0, src@.len() as int) =~= src@);
        lemma_first_index(src@, FIX_EQUALS);
    }
    if index < src.len() {
        Some(index)
    } else {
        None
    }
}

} // verus!
