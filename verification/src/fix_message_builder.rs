use vstd::prelude::*;
use vstd::utf8::*;
use vstd::slice::slice_to_vec;
use crate::errors::FixSerializeError;
use crate::scan::{
    append_bytes, bytes_eq, check_sum_bytes, find_tag, is_body_len_tag, is_check_sum_tag,
    is_version_tag, write_decimal,
};
use crate::text::{lemma_ascii_is_utf8, string_from_utf8, strings_bytes, vecs_bytes};
use crate::utils::{
    bytes_to_fix_string, compile_fix_chunk, split_fix_to_tags, write_body_len, FIX_DELIMITER,
    FIX_EQUALS,
};
use crate::wire::{
    body, check_sum_digits, check_sum_tag, chunk, first_value, has_tag, items, lemma_chunk_utf8,
    lemma_decimal_ascii, lemma_framed_utf8, lemma_payload_without, lemma_position_is, message,
    message_type_tag, pairs_view, payload, payload_without, position, shown, signed_decimal,
    summed, values_of, version_tag,
};

verus! {

/// An owned message: version, message type and the payload fields in the
/// order in which they were added. Fields with the same tag may repeat.
#[derive(Clone)]
pub struct FixMessageBuilder {
    fix_version: Vec<u8>,
    message_type: Vec<u8>,
    data: Vec<(Vec<u8>, Vec<u8>)>,
}

/// The payload fields of a message that was read from the given fields:
/// all of them, in wire order, but the framing fields and the first
/// message-type field, which gives the type of the message.
pub open spec fn parsed_fields(fields: Seq<(Seq<u8>, Seq<u8>)>) -> Seq<(Seq<u8>, Seq<u8>)> {
    payload(fields.remove(position(fields, message_type_tag())))
}

/// What keeps the given fields from being read as a message, if anything: a
/// missing version; then a missing message type; then, where the checksum
/// is to be validated, a missing checksum, or one that differs from the
/// checksum of the message that was read. Of a repeated tag the first
/// counts.
pub open spec fn parse_defect(fields: Seq<(Seq<u8>, Seq<u8>)>, check_sum_validation: bool)
    -> Option<FixSerializeError> {
    if !has_tag(fields, version_tag()) {
        Some(FixSerializeError::VersionTagNotFound)
    } else if !has_tag(fields, message_type_tag()) {
        Some(FixSerializeError::MessageTypeTagNotFound)
    } else if check_sum_validation && !has_tag(fields, check_sum_tag()) {
        Some(FixSerializeError::CheckSumTagNotFound)
    } else if check_sum_validation && first_value(fields, check_sum_tag()) != check_sum_digits(
        summed(
            first_value(fields, version_tag()),
            body(first_value(fields, message_type_tag()), parsed_fields(fields)),
        ),
    ) {
        Some(FixSerializeError::InvalidCheckSum)
    } else {
        None
    }
}

impl FixMessageBuilder {
    /// Reads a message from its bytes. Version and message type are the
    /// values of the first fields with tag 8 and tag 35; the payload fields
    /// keep their wire order. With `check_sum_validation` the checksum field
    /// must hold the checksum of the message that was read.
    pub fn from_bytes(payload: &[u8], check_sum_validation: bool) -> (r: Result<
        Self,
        FixSerializeError,
    >)
        ensures
            match parse_defect(items(payload@, FIX_DELIMITER), check_sum_validation) {
                Some(e) => r matches Err(x) && x == e,
                None => {
                    &&& r matches Ok(b)
                    &&& b.version() == first_value(items(payload@, FIX_DELIMITER), version_tag())
                    &&& b.message_type() == first_value(
                        items(payload@, FIX_DELIMITER),
                        message_type_tag(),
                    )
                    &&& b.fields() == parsed_fields(items(payload@, FIX_DELIMITER))
                },
            },
    {
        let tags = split_fix_to_tags(payload);
        let ghost all = pairs_view(tags@);
        let version_key: [u8; 1] = [0x38];
        let message_type_key: [u8; 2] = [0x33, 0x35];
        let check_sum_key: [u8; 2] = [0x31, 0x30];
        assert(version_key@ =~= version_tag());
        assert(message_type_key@ =~= message_type_tag());
        assert(check_sum_key@ =~= check_sum_tag());
        let version_at: usize = find_tag(&tags, version_key.as_slice());
        if version_at >= tags.len() {
            return Err(FixSerializeError::VersionTagNotFound);
        }
        let message_type_at: usize = find_tag(&tags, message_type_key.as_slice());
        if message_type_at >= tags.len() {
            return Err(FixSerializeError::MessageTypeTagNotFound);
        }
        let check_sum_at: usize = find_tag(&tags, check_sum_key.as_slice());
        if check_sum_validation && check_sum_at >= tags.len() {
            return Err(FixSerializeError::CheckSumTagNotFound);
        }
        let mut result = Self {
            fix_version: slice_to_vec(tags[version_at].1.as_slice()),
            message_type: slice_to_vec(tags[message_type_at].1.as_slice()),
            data: Vec::new(),
        };
        let mut i: usize = 0;
        proof {
            assert(result.fields() =~= payload_without(
                all.subrange(0, 0),
                message_type_at as int,
            ));
        }
        while i < tags.len()
            invariant
                i <= tags@.len(),
                all == pairs_view(tags@),
                result.version() == first_value(all, version_tag()),
                result.message_type() == first_value(all, message_type_tag()),
                result.fields() == payload_without(
                    all.subrange(0, i as int),
                    message_type_at as int,
                ),
            decreases tags@.len() - i,
        {
            proof {
                let next = all.subrange(0, i + 1);
                assert(next.drop_last() =~= all.subrange(0, i as int));
                assert(next.last() == all[i as int]);
            }
            let tag: &[u8] = tags[i].0.as_slice();
            if i != message_type_at && !is_version_tag(tag) && !is_body_len_tag(tag)
                && !is_check_sum_tag(tag) {
                result.with_value_as_bytes(slice_to_vec(tag), slice_to_vec(tags[i].1.as_slice()));
            }
            i += 1;
        }
        proof {
            assert(all.subrange(0, i as int) =~= all);
            lemma_payload_without(all, message_type_at as int);
        }
        if check_sum_validation {
            let check_sum = result.calculate_check_sum();
            if !bytes_eq(tags[check_sum_at].1.as_slice(), check_sum.as_slice()) {
                return Err(FixSerializeError::InvalidCheckSum);
            }
        }
        Ok(result)
    }

    /// The protocol version.
    pub closed spec fn version(&self) -> Seq<u8> {
        self.fix_version@
    }

    /// The message type.
    pub closed spec fn message_type(&self) -> Seq<u8> {
        self.message_type@
    }

    /// The payload fields, each a tag and a value, in stored order.
    pub closed spec fn fields(&self) -> Seq<(Seq<u8>, Seq<u8>)> {
        pairs_view(self.data@)
    }

    /// True when version and body are well-formed UTF-8, so that the message
    /// has a textual form.
    pub open spec fn is_text(&self) -> bool {
        &&& valid_utf8(self.version())
        &&& valid_utf8(body(self.message_type(), self.fields()))
    }

    /// A message of the given version and type, with no payload field.
    pub fn new(version: &str, message_type: &str) -> (r: Self)
        ensures
            r.version() == encode_utf8(version@),
            r.message_type() == encode_utf8(message_type@),
            r.fields() == Seq::<(Seq<u8>, Seq<u8>)>::empty(),
            r.is_text(),
    {
        let r = Self {
            fix_version: slice_to_vec(version.as_bytes()),
            message_type: slice_to_vec(message_type.as_bytes()),
            data: Vec::new(),
        };
        proof {
            assert(r.fields() =~= Seq::<(Seq<u8>, Seq<u8>)>::empty());
            encode_utf8_valid_utf8(version@);
            encode_utf8_valid_utf8(message_type@);
            lemma_ascii_is_utf8(message_type_tag());
            lemma_chunk_utf8(message_type_tag(), r.message_type());
            assert(body(r.message_type(), r.fields()) =~= chunk(
                message_type_tag(),
                r.message_type(),
            ));
        }
        r
    }

    /// The bytes of the message.
    pub fn as_bytes(&self) -> (r: Vec<u8>)
        ensures
            r@ == message(self.version(), self.message_type(), self.fields()),
    {
        self.compile_message()
    }

    /// The value of the first field with tag `key`.
    pub fn get_value(&self, key: Vec<u8>) -> (r: Option<&Vec<u8>>)
        ensures
            has_tag(self.fields(), key@) ==> (r matches Some(v) && v@ == first_value(
                self.fields(),
                key@,
            )),
            !has_tag(self.fields(), key@) ==> r is None,
    {
        let i: usize = self.find(key.as_slice());
        if i < self.data.len() {
            Some(&self.data[i].1)
        } else {
            None
        }
    }

    /// The values of all fields with tag `key`, in stored order.
    pub fn get_values(&self, key: Vec<u8>) -> (r: Vec<&Vec<u8>>)
        ensures
            vecs_bytes(r@) == values_of(self.fields(), key@),
    {
        let mut result: Vec<&Vec<u8>> = Vec::new();
        let mut i: usize = 0;
        while i < self.data.len()
            invariant
                i <= self.data@.len(),
                vecs_bytes(result@) == values_of(
                    self.fields().subrange(0, i as int),
                    key@,
                ),
            decreases self.data@.len() - i,
        {
            proof {
                let next = self.fields().subrange(0, i + 1);
                assert(next.drop_last() =~= self.fields().subrange(0, i as int));
                assert(next.last() == self.fields()[i as int]);
            }
            let ghost before = result@;
            if bytes_eq(self.data[i].0.as_slice(), key.as_slice()) {
                result.push(&self.data[i].1);
                assert(vecs_bytes(result@) =~= vecs_bytes(before).push(self.data@[i as int].1@));
            }
            i += 1;
        }
        assert(self.fields().subrange(0, i as int) =~= self.fields());
        result
    }

    /// The message type.
    pub fn get_message_type(&self) -> (r: &Vec<u8>)
        ensures
            r@ == self.message_type(),
    {
        &self.message_type
    }

    /// The message type as a string.
    pub fn get_message_type_as_string(&self) -> (r: String)
        requires
            valid_utf8(self.message_type()),
        ensures
            encode_utf8(r@) == self.message_type(),
    {
        string_from_utf8(self.message_type.as_slice())
    }

    /// The value of the first field with tag `key`, as a string.
    pub fn get_value_as_string(&self, key: Vec<u8>) -> (r: Option<String>)
        requires
            has_tag(self.fields(), key@) ==> valid_utf8(first_value(self.fields(), key@)),
        ensures
            has_tag(self.fields(), key@) ==> (r matches Some(s) && encode_utf8(s@)
                == first_value(self.fields(), key@)),
            !has_tag(self.fields(), key@) ==> r is None,
    {
        self.first_string(key.as_slice())
    }

    /// The values of all fields with tag `key`, as strings, in stored order.
    pub fn get_values_as_string(&self, key: Vec<u8>) -> (r: Vec<String>)
        requires
            forall|i: int|
                0 <= i < self.fields().len() && self.fields()[i].0 == key@ ==> valid_utf8(
                    #[trigger] self.fields()[i].1,
                ),
        ensures
            strings_bytes(r@) == values_of(self.fields(), key@),
    {
        self.all_strings(key.as_slice())
    }

    /// The value of the first field with tag `key`, as a string.
    pub fn get_value_string(&self, key: &str) -> (r: Option<String>)
        requires
            has_tag(self.fields(), encode_utf8(key@)) ==> valid_utf8(
                first_value(self.fields(), encode_utf8(key@)),
            ),
        ensures
            has_tag(self.fields(), encode_utf8(key@)) ==> (r matches Some(s) && encode_utf8(s@)
                == first_value(self.fields(), encode_utf8(key@))),
            !has_tag(self.fields(), encode_utf8(key@)) ==> r is None,
    {
        self.first_string(key.as_bytes())
    }

    /// The values of all fields with tag `key`, as strings, in stored order.
    pub fn get_values_string(&self, key: &str) -> (r: Vec<String>)
        requires
            forall|i: int|
                0 <= i < self.fields().len() && self.fields()[i].0 == encode_utf8(key@)
                    ==> valid_utf8(#[trigger] self.fields()[i].1),
        ensures
            strings_bytes(r@) == values_of(
                self.fields(),
                encode_utf8(key@),
            ),
    {
        self.all_strings(key.as_bytes())
    }

    /// Appends the field whose tag is `key` in decimal and whose value is
    /// `value`.
    pub fn with_value(&mut self, key: i32, value: &str)
        ensures
            final(self).version() == old(self).version(),
            final(self).message_type() == old(self).message_type(),
            final(self).fields() == old(self).fields().push(
                (signed_decimal(key as int), encode_utf8(value@)),
            ),
            old(self).is_text() ==> final(self).is_text(),
    {
        let mut tag: Vec<u8> = Vec::new();
        if key < 0 {
            tag.push(0x2d);
            write_decimal(&mut tag, (-(key as i64)) as u64);
        } else {
            write_decimal(&mut tag, key as u64);
        }
        assert(tag@ =~= signed_decimal(key as int));
        proof {
            let k = signed_decimal(key as int);
            let v = encode_utf8(value@);
            encode_utf8_valid_utf8(value@);
            if key < 0 {
                lemma_decimal_ascii((-key) as nat);
            } else {
                lemma_decimal_ascii(key as nat);
            }
            lemma_ascii_is_utf8(k);
            lemma_chunk_utf8(k, v);
            let f = self.fields().push((k, v));
            assert(f.drop_last() =~= self.fields());
            assert(body(self.message_type(), f) =~= body(self.message_type(), self.fields())
                + chunk(k, v));
            if self.is_text() {
                valid_utf8_concat(body(self.message_type(), self.fields()), chunk(k, v));
            }
        }
        self.with_value_as_bytes(tag, slice_to_vec(value.as_bytes()));
    }

    /// The message in its textual form, with `|` in place of each delimiter.
    pub fn to_string(&self) -> (r: String)
        requires
            self.is_text(),
        ensures
            encode_utf8(r@) == shown(
                message(self.version(), self.message_type(), self.fields()),
            ),
    {
        let bytes = self.compile_message();
        proof {
            lemma_framed_utf8(self.version(), body(self.message_type(), self.fields()));
        }
        bytes_to_fix_string(bytes.as_slice())
    }

    /// Index of the first field with tag `key`, or the number of fields.
    fn find(&self, key: &[u8]) -> (i: usize)
        ensures
            i == position(self.fields(), key@),
            i <= self.data@.len(),
    {
        let mut i: usize = 0;
        while i < self.data.len()
            invariant
                i <= self.data@.len(),
                forall|j: int| 0 <= j < i ==> self.fields()[j].0 != key@,
            decreases self.data@.len() - i,
        {
            if bytes_eq(self.data[i].0.as_slice(), key) {
                proof {
                    lemma_position_is(self.fields(), key@, i as int);
                }
                return i;
            }
            i += 1;
        }
        proof {
            lemma_position_is(self.fields(), key@, i as int);
        }
        i
    }

    fn first_string(&self, key: &[u8]) -> (r: Option<String>)
        requires
            has_tag(self.fields(), key@) ==> valid_utf8(first_value(self.fields(), key@)),
        ensures
            has_tag(self.fields(), key@) ==> (r matches Some(s) && encode_utf8(s@)
                == first_value(self.fields(), key@)),
            !has_tag(self.fields(), key@) ==> r is None,
    {
        let i: usize = self.find(key);
        if i < self.data.len() {
            Some(string_from_utf8(self.data[i].1.as_slice()))
        } else {
            None
        }
    }

    fn all_strings(&self, key: &[u8]) -> (r: Vec<String>)
        requires
            forall|i: int|
                0 <= i < self.fields().len() && self.fields()[i].0 == key@ ==> valid_utf8(
                    #[trigger] self.fields()[i].1,
                ),
        ensures
            strings_bytes(r@) == values_of(self.fields(), key@),
    {
        let mut result: Vec<String> = Vec::new();
        let mut i: usize = 0;
        while i < self.data.len()
            invariant
                i <= self.data@.len(),
                forall|i: int|
                    0 <= i < self.fields().len() && self.fields()[i].0 == key@ ==> valid_utf8(
                        #[trigger] self.fields()[i].1,
                    ),
                strings_bytes(result@) == values_of(
                    self.fields().subrange(0, i as int),
                    key@,
                ),
            decreases self.data@.len() - i,
        {
            proof {
                let next = self.fields().subrange(0, i + 1);
                assert(next.drop_last() =~= self.fields().subrange(0, i as int));
                assert(next.last() == self.fields()[i as int]);
            }
            let ghost before = result@;
            if bytes_eq(self.data[i].0.as_slice(), key) {
                assert(valid_utf8(self.fields()[i as int].1));
                let s = string_from_utf8(self.data[i].1.as_slice());
                result.push(s);
                assert(strings_bytes(result@) =~= strings_bytes(before).push(
                    self.data@[i as int].1@,
                ));
            }
            i += 1;
        }
        assert(self.fields().subrange(0, i as int) =~= self.fields());
        result
    }

    fn with_value_as_bytes(&mut self, key: Vec<u8>, value: Vec<u8>)
        ensures
            final(self).version() == old(self).version(),
            final(self).message_type() == old(self).message_type(),
            final(self).fields() == old(self).fields().push((key@, value@)),
    {
        self.data.push((key, value));
        assert(self.fields() =~= old(self).fields().push((key@, value@)));
    }

    fn compile_message(&self) -> (result: Vec<u8>)
        ensures
            result@ == message(self.version(), self.message_type(), self.fields()),
    {
        let mut result: Vec<u8> = Vec::new();
        result.push(0x38);
        result.push(FIX_EQUALS);
        append_bytes(&mut result, self.fix_version.as_slice());
        result.push(FIX_DELIMITER);
        let (body_len, body) = self.compile_body();
        write_body_len(&mut result, body_len);
        append_bytes(&mut result, body.as_slice());
        assert(result@ =~= summed(self.version(), body@));
        let check_sum = check_sum_bytes(result.as_slice());
        result.push(0x31);
        result.push(0x30);
        result.push(FIX_EQUALS);
        append_bytes(&mut result, check_sum.as_slice());
        result.push(FIX_DELIMITER);
        assert(result@ =~= message(self.version(), self.message_type(), self.fields()));
        result
    }

    /// The checksum digits of the message.
    fn calculate_check_sum(&self) -> (r: Vec<u8>)
        ensures
            r@ == check_sum_digits(
                summed(self.version(), body(self.message_type(), self.fields())),
            ),
    {
        let mut result: Vec<u8> = Vec::new();
        result.push(0x38);
        result.push(FIX_EQUALS);
        append_bytes(&mut result, self.fix_version.as_slice());
        result.push(FIX_DELIMITER);
        let (body_len, body) = self.compile_body();
        write_body_len(&mut result, body_len);
        append_bytes(&mut result, body.as_slice());
        assert(result@ =~= summed(self.version(), body@));
        check_sum_bytes(result.as_slice())
    }

    /// The body and its length in bytes.
    fn compile_body(&self) -> (r: (usize, Vec<u8>))
        ensures
            r.1@ == body(self.message_type(), self.fields()),
            r.0 == r.1@.len(),
    {
        let mut body: Vec<u8> = compile_fix_chunk(&[0x33, 0x35], self.message_type.as_slice());
        let mut i: usize = 0;
        assert(self.fields().subrange(0, 0) =~= Seq::<(Seq<u8>, Seq<u8>)>::empty());
        while i < self.data.len()
            invariant
                i <= self.data@.len(),
                body@ == crate::wire::body(
                    self.message_type(),
                    self.fields().subrange(0, i as int),
                ),
            decreases self.data@.len() - i,
        {
            proof {
                let next = self.fields().subrange(0, i + 1);
                assert(next.drop_last() =~= self.fields().subrange(0, i as int));
                assert(next.last() == self.fields()[i as int]);
            }
            let data_to_insert = compile_fix_chunk(
                self.data[i].0.as_slice(),
                self.data[i].1.as_slice(),
            );
            append_bytes(&mut body, data_to_insert.as_slice());
            i += 1;
            assert(body@ =~= crate::wire::body(
                self.message_type(),
                self.fields().subrange(0, i as int),
            ));
        }
        assert(self.fields().subrange(0, i as int) =~= self.fields());
        (body.len(), body)
    }
}

} // verus!
