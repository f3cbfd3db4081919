use vstd::prelude::*;
use vstd::utf8::*;
use vstd::slice::slice_to_vec;
use crate::errors::FixSerializeError;
use crate::fix_message_body_builder::FixMessageBodyBuilder;
use crate::fix_message_iterator::FixMessageIterator;
use crate::scan::{
    bytes_eq, is_body_len_tag, is_check_sum_tag, is_message_type_tag, is_version_tag, split_item,
};
use crate::text::{lemma_utf8_cut_at_ascii, str_from_utf8, strs_bytes};
use crate::utils::{
    convert_fix_message_to_string, lemma_tag_texts, FIX_DELIMITER, FIX_EQUALS, FIX_MESSAGE_TYPE,
    FIX_TEXT_DELIMITER,
};
use crate::wire::{
    all_items, body_len_tag, check_sum_digits, check_sum_tag, chunks, fields, first_index,
    first_value, has_tag, is_framing, is_item, item, items, items_of, last_value,
    lemma_fields_step, lemma_first_index, lemma_position_is, lemma_position_push,
    lemma_tags_differ, message_type_tag, payload, position, shown, summed, truncated, values_of,
    version_tag,
};

verus! {

/// A read-only view of a message in a buffer of the caller: a text whose
/// fields end in `|`, or bytes whose fields end in the delimiter byte.
#[derive(Debug)]
pub enum FixMessageReader<'s> {
    AsStr(&'s str),
    AsBytes(&'s [u8]),
}

/// What a validation pass over the given fields finds wrong first, if
/// anything: a buffer that ends inside a field; then a missing body length,
/// message type, checksum or version, in this order; then a checksum that
/// differs from the one computed over the version field, the body-length
/// field and the payload fields. Of a repeated framing tag the last counts.
pub open spec fn defect(fields: Seq<(Seq<u8>, Seq<u8>)>, truncated: bool) -> Option<
    FixSerializeError,
> {
    if truncated {
        Some(FixSerializeError::FixDelimiterNotFound)
    } else if !has_tag(fields, body_len_tag()) {
        Some(FixSerializeError::BodyLenTagNotFound)
    } else if !has_tag(fields, message_type_tag()) {
        Some(FixSerializeError::MessageTypeTagNotFound)
    } else if !has_tag(fields, check_sum_tag()) {
        Some(FixSerializeError::CheckSumTagNotFound)
    } else if !has_tag(fields, version_tag()) {
        Some(FixSerializeError::VersionTagNotFound)
    } else if check_sum_digits(
        summed(last_value(fields, version_tag()), chunks(payload(fields))),
    ) != last_value(fields, check_sum_tag()) {
        Some(FixSerializeError::InvalidCheckSum)
    } else {
        None
    }
}

impl<'s> FixMessageReader<'s> {
    /// The bytes of the buffer.
    pub open spec fn bytes(&self) -> Seq<u8> {
        match *self {
            Self::AsStr(s) => encode_utf8(s@),
            Self::AsBytes(b) => b@,
        }
    }

    /// The byte that ends a field.
    pub open spec fn delimiter(&self) -> u8 {
        match *self {
            Self::AsStr(_) => FIX_TEXT_DELIMITER,
            Self::AsBytes(_) => FIX_DELIMITER,
        }
    }

    /// The complete fields of the buffer, in wire order.
    pub open spec fn fields(&self) -> Seq<Seq<u8>> {
        fields(self.bytes(), self.delimiter())
    }

    /// The complete fields of the buffer as pairs of tag and value.
    pub open spec fn items(&self) -> Seq<(Seq<u8>, Seq<u8>)> {
        items(self.bytes(), self.delimiter())
    }

    /// True when the buffer ends inside a field.
    pub open spec fn truncated(&self) -> bool {
        truncated(self.bytes(), self.delimiter())
    }

    /// True when every complete field holds a `=`.
    pub open spec fn well_formed(&self) -> bool {
        all_items(self.bytes(), self.delimiter())
    }

    /// A view of a text whose fields end in `|`.
    pub fn from_str(data: &'s str) -> (r: Self)
        ensures
            r == Self::AsStr(data),
    {
        Self::AsStr(data)
    }

    /// A view of bytes whose fields end in the delimiter byte.
    pub fn from_bytes(data: &'s [u8]) -> (r: Self)
        ensures
            r == Self::AsBytes(data),
    {
        Self::AsBytes(data)
    }

    /// A pass over the fields of the buffer, from its start.
    pub fn iter(&self) -> (r: FixMessageIterator<'s>)
        ensures
            r.remaining() == self.bytes(),
            r.delimiter() == self.delimiter(),
    {
        match self {
            Self::AsStr(src) => FixMessageIterator::from_str(src),
            Self::AsBytes(src) => FixMessageIterator::from_slice(src),
        }
    }

    /// Tells whether every complete field of the buffer holds a `=`.
    pub fn is_well_formed(&self) -> (r: bool)
        ensures
            r == self.well_formed(),
    {
        let mut it = self.iter();
        let ghost d = self.delimiter();
        let ghost mut done: Seq<Seq<u8>> = Seq::empty();
        proof {
            assert(self.fields() =~= done + fields(it.remaining(), d));
        }
        loop
            invariant
                d == self.delimiter(),
                it.delimiter() == d,
                self.fields() == done + fields(it.remaining(), d),
                forall|j: int| 0 <= j < done.len() ==> is_item(#[trigger] done[j]),
            decreases it.remaining().len(),
        {
            let ghost rest = it.remaining();
            proof {
                lemma_fields_step(rest, d);
            }
            match it.next_field() {
                Some(Ok(field)) => {
                    proof {
                        assert(self.fields() =~= done.push(field@) + fields(it.remaining(), d));
                        assert(self.fields()[done.len() as int] == field@);
                    }
                    let (tag, _value) = split_item(field);
                    if tag.len() == field.len() {
                        proof {
                            lemma_first_index(field@, FIX_EQUALS);
                        }
                        return false;
                    }
                    proof {
                        lemma_first_index(field@, FIX_EQUALS);
                        done = done.push(field@);
                    }
                },
                _ => {
                    proof {
                        assert(self.fields() =~= done);
                    }
                    return true;
                },
            }
        }
    }

    /// Validates the framing of the message: all four framing tags are
    /// there and the checksum field holds the checksum of the message.
    /// Whether the body-length field holds the length of the body is not
    /// looked at.
    pub fn check_payload(self) -> (r: Result<Self, FixSerializeError>)
        requires
            self.well_formed(),
        ensures
            match defect(self.items(), self.truncated()) {
                Some(e) => r == Err::<Self, FixSerializeError>(e),
                None => r == Ok::<Self, FixSerializeError>(self),
            },
    {
        let mut fix_version: Option<&'s [u8]> = None;
        let mut fix_body_len: bool = false;
        let mut fix_check_sum: Option<&'s [u8]> = None;
        let mut fix_message_type: bool = false;
        let mut body_builder = FixMessageBodyBuilder::new();
        let mut it = self.iter();
        let ghost d = self.delimiter();
        let ghost mut done: Seq<Seq<u8>> = Seq::empty();
        proof {
            assert(self.fields() =~= done + fields(it.remaining(), d));
            assert(items_of(done) =~= Seq::<(Seq<u8>, Seq<u8>)>::empty());
            assert(body_builder@ =~= chunks(payload(items_of(done))));
        }
        loop
            invariant
                self.well_formed(),
                d == self.delimiter(),
                it.delimiter() == d,
                self.fields() == done + fields(it.remaining(), d),
                self.truncated() == truncated(it.remaining(), d),
                body_builder@ == chunks(payload(items_of(done))),
                fix_body_len == has_tag(items_of(done), body_len_tag()),
                fix_message_type == has_tag(items_of(done), message_type_tag()),
                fix_version is Some == has_tag(items_of(done), version_tag()),
                fix_version matches Some(v) ==> v@ == last_value(items_of(done), version_tag()),
                fix_check_sum is Some == has_tag(items_of(done), check_sum_tag()),
                fix_check_sum matches Some(v) ==> v@ == last_value(
                    items_of(done),
                    check_sum_tag(),
                ),
            ensures
                self.fields() == done,
                !self.truncated(),
            decreases it.remaining().len(),
        {
            let ghost rest = it.remaining();
            proof {
                lemma_fields_step(rest, d);
                lemma_tags_differ();
            }
            match it.next_field() {
                None => {
                    proof {
                        assert(!rest.contains(d));
                        assert(self.fields() =~= done);
                    }
                    break ;
                },
                Some(Err(e)) => {
                    proof {
                        assert(self.fields() =~= done);
                    }
                    return Err(e);
                },
                Some(Ok(field)) => {
                    let (key, value) = split_item(field);
                    proof {
                        let longer = done.push(field@);
                        assert(self.fields() =~= longer + fields(it.remaining(), d));
                        assert(items_of(longer) =~= items_of(done).push(item(field@)));
                        assert(items_of(longer).drop_last() =~= items_of(done));
                        if !is_framing(item(field@).0) {
                            let more = payload(items_of(done)).push(item(field@));
                            assert(more.drop_last() =~= payload(items_of(done)));
                            assert(payload(items_of(longer)) == more);
                        }
                        lemma_position_push(items_of(done), item(field@), version_tag());
                        lemma_position_push(items_of(done), item(field@), body_len_tag());
                        lemma_position_push(items_of(done), item(field@), check_sum_tag());
                        lemma_position_push(items_of(done), item(field@), message_type_tag());
                        done = longer;
                    }
                    if is_version_tag(key) {
                        fix_version = Some(value);
                    } else if is_body_len_tag(key) {
                        fix_body_len = true;
                    } else if is_check_sum_tag(key) {
                        fix_check_sum = Some(value);
                    } else if is_message_type_tag(key) {
                        body_builder.append_raw(key, value);
                        fix_message_type = true;
                    } else {
                        body_builder.append_raw(key, value);
                    }
                },
            }
        }
        if !fix_body_len {
            return Err(FixSerializeError::BodyLenTagNotFound);
        }
        if !fix_message_type {
            return Err(FixSerializeError::MessageTypeTagNotFound);
        }
        if fix_check_sum.is_none() {
            return Err(FixSerializeError::CheckSumTagNotFound);
        }
        if fix_version.is_none() {
            return Err(FixSerializeError::VersionTagNotFound);
        }
        let fix_check_sum = fix_check_sum.unwrap();
        let fix_version = fix_version.unwrap();
        let check_sum = body_builder.check_sum_of(fix_version);
        if !bytes_eq(check_sum.as_slice(), fix_check_sum) {
            return Err(FixSerializeError::InvalidCheckSum);
        }
        Ok(self)
    }

    /// The value of the first field with tag `key`. The search stops at that
    /// field; where there is none, it fails if the buffer ends inside a
    /// field.
    pub fn get_value(&self, key: &str) -> (r: Result<Option<&'s str>, FixSerializeError>)
        requires
            forall|i: int|
                0 <= i < self.fields().len() && i <= position(self.items(), encode_utf8(key@))
                    ==> is_item(#[trigger] self.fields()[i]),
            *self is AsBytes && has_tag(self.items(), encode_utf8(key@)) ==> valid_utf8(
                first_value(self.items(), encode_utf8(key@)),
            ),
        ensures
            has_tag(self.items(), encode_utf8(key@)) ==> (r matches Ok(Some(v)) && encode_utf8(v@)
                == first_value(self.items(), encode_utf8(key@))),
            !has_tag(self.items(), encode_utf8(key@)) && self.truncated() ==> (r matches Err(e)
                && e is FixDelimiterNotFound),
            !has_tag(self.items(), encode_utf8(key@)) && !self.truncated() ==> r matches Ok(None),
    {
        let wanted: &[u8] = key.as_bytes();
        let mut it = self.iter();
        let ghost d = self.delimiter();
        let ghost mut done: Seq<Seq<u8>> = Seq::empty();
        proof {
            assert(self.fields() =~= done + fields(it.remaining(), d));
        }
        loop
            invariant
                d == self.delimiter(),
                it.delimiter() == d,
                wanted@ == encode_utf8(key@),
                self.fields() == done + fields(it.remaining(), d),
                self.truncated() == truncated(it.remaining(), d),
                forall|j: int| 0 <= j < done.len() ==> (#[trigger] items_of(done)[j]).0 != wanted@,
                *self is AsBytes && has_tag(self.items(), wanted@) ==> valid_utf8(
                    first_value(self.items(), wanted@),
                ),
            decreases it.remaining().len(),
        {
            let ghost rest = it.remaining();
            proof {
                lemma_fields_step(rest, d);
            }
            match it.next_field() {
                None => {
                    proof {
                        assert(self.fields() =~= done);
                        lemma_position_is(self.items(), wanted@, done.len() as int);
                    }
                    return Ok(None);
                },
                Some(Err(e)) => {
                    proof {
                        assert(self.fields() =~= done);
                        lemma_position_is(self.items(), wanted@, done.len() as int);
                    }
                    return Err(e);
                },
                Some(Ok(field)) => {
                    let (tag, value) = split_item(field);
                    proof {
                        let longer = done.push(field@);
                        assert(self.fields() =~= longer + fields(it.remaining(), d));
                        assert(self.fields()[done.len() as int] == field@);
                        assert(items_of(longer) =~= items_of(done).push(item(field@)));
                    }
                    if bytes_eq(tag, wanted) {
                        proof {
                            let at = done.len() as int;
                            assert forall|j: int| 0 <= j < at implies self.items()[j].0
                                != wanted@ by {
                                assert(self.items()[j] == items_of(done)[j]);
                            }
                            lemma_position_is(self.items(), wanted@, at);
                            if d == FIX_TEXT_DELIMITER {
                                lemma_first_index(field@, FIX_EQUALS);
                                if is_item(field@) {
                                    lemma_utf8_cut_at_ascii(
                                        field@,
                                        first_index(field@, FIX_EQUALS),
                                    );
                                }
                            }
                        }
                        return Ok(Some(str_from_utf8(value).unwrap()));
                    }
                    proof {
                        done = done.push(field@);
                    }
                },
            }
        }
    }

    /// The values of all fields with tag `key`, in wire order.
    pub fn get_values(&self, key: &str) -> (r: Result<Vec<&'s str>, FixSerializeError>)
        requires
            self.well_formed(),
            *self is AsBytes ==> forall|i: int|
                0 <= i < self.items().len() && self.items()[i].0 == encode_utf8(key@)
                    ==> valid_utf8(#[trigger] self.items()[i].1),
        ensures
            self.truncated() ==> (r matches Err(e) && e is FixDelimiterNotFound),
            !self.truncated() ==> (r matches Ok(v) && strs_bytes(v@)
                == values_of(self.items(), encode_utf8(key@))),
    {
        let wanted: &[u8] = key.as_bytes();
        let mut result: Vec<&'s str> = Vec::new();
        let mut it = self.iter();
        let ghost d = self.delimiter();
        let ghost mut done: Seq<Seq<u8>> = Seq::empty();
        proof {
            assert(self.fields() =~= done + fields(it.remaining(), d));
            assert(items_of(done) =~= Seq::<(Seq<u8>, Seq<u8>)>::empty());
        }
        loop
            invariant
                d == self.delimiter(),
                it.delimiter() == d,
                wanted@ == encode_utf8(key@),
                self.fields() == done + fields(it.remaining(), d),
                self.truncated() == truncated(it.remaining(), d),
                strs_bytes(result@) == values_of(
                    items_of(done),
                    wanted@,
                ),
                *self is AsBytes ==> forall|i: int|
                    0 <= i < self.items().len() && self.items()[i].0 == wanted@ ==> valid_utf8(
                        #[trigger] self.items()[i].1,
                    ),
            decreases it.remaining().len(),
        {
            let ghost rest = it.remaining();
            proof {
                lemma_fields_step(rest, d);
            }
            match it.next_field() {
                None => {
                    proof {
                        assert(self.fields() =~= done);
                    }
                    return Ok(result);
                },
                Some(Err(e)) => {
                    return Err(e);
                },
                Some(Ok(field)) => {
                    let (tag, value) = split_item(field);
                    let ghost before = result@;
                    proof {
                        let longer = done.push(field@);
                        assert(self.fields() =~= longer + fields(it.remaining(), d));
                        assert(self.fields()[done.len() as int] == field@);
                        assert(self.items()[done.len() as int] == item(field@));
                        assert(items_of(longer) =~= items_of(done).push(item(field@)));
                        assert(items_of(longer).drop_last() =~= items_of(done));
                        done = longer;
                    }
                    if bytes_eq(tag, wanted) {
                        proof {
                            lemma_first_index(field@, FIX_EQUALS);
                            if d == FIX_TEXT_DELIMITER {
                                if is_item(field@) {
                                    lemma_utf8_cut_at_ascii(
                                        field@,
                                        first_index(field@, FIX_EQUALS),
                                    );
                                }
                            } else {
                                let at = done.len() - 1;
                                assert(self.items()[at].0 == wanted@);
                                assert(self.items()[at].1 == value@);
                            }
                            assert(valid_utf8(value@));
                        }
                        result.push(str_from_utf8(value).unwrap());
                        assert(strs_bytes(result@)
                            =~= strs_bytes(before).push(value@));
                    }
                },
            }
        }
    }

    /// The value of the first field with tag 35.
    pub fn get_message_type(&self) -> (r: Result<&'s str, FixSerializeError>)
        requires
            forall|i: int|
                0 <= i < self.fields().len() && i <= position(self.items(), message_type_tag())
                    ==> is_item(#[trigger] self.fields()[i]),
            *self is AsBytes && has_tag(self.items(), message_type_tag()) ==> valid_utf8(
                first_value(self.items(), message_type_tag()),
            ),
        ensures
            has_tag(self.items(), message_type_tag()) ==> (r matches Ok(v) && encode_utf8(v@)
                == first_value(self.items(), message_type_tag())),
            !has_tag(self.items(), message_type_tag()) && self.truncated() ==> (r matches Err(e)
                && e is FixDelimiterNotFound),
            !has_tag(self.items(), message_type_tag()) && !self.truncated() ==> (r matches Err(e)
                && e is MessageTypeTagNotFound),
    {
        proof {
            lemma_tag_texts();
        }
        match self.get_value(FIX_MESSAGE_TYPE) {
            Err(e) => Err(e),
            Ok(None) => Err(FixSerializeError::MessageTypeTagNotFound),
            Ok(Some(value)) => Ok(value),
        }
    }

    /// The message in its textual form: a text as it is, bytes with `|` in
    /// place of each delimiter.
    pub fn to_string(&self) -> (r: String)
        requires
            *self is AsBytes ==> valid_utf8(self.bytes()),
        ensures
            *self is AsStr ==> encode_utf8(r@) == self.bytes(),
            *self is AsBytes ==> encode_utf8(r@) == shown(self.bytes()),
    {
        match self {
            FixMessageReader::AsStr(src) => (*src).to_owned(),
            FixMessageReader::AsBytes(src) => convert_fix_message_to_string(
                slice_to_vec(src),
            ),
        }
    }
}

} // verus!
