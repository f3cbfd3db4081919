use vstd::prelude::*;
use vstd::utf8::*;
use crate::fix_message_body_builder::FixMessageBodyBuilder;
use crate::scan::append_bytes;
use crate::text::lemma_ascii_is_utf8;
use crate::utils::{
    bytes_to_fix_string, lemma_tag_texts, write_body_len, write_fix_chunk, FIX_CHECK_SUM,
    FIX_MESSAGE_TYPE, FIX_VERSION,
};
use crate::wire::{
    chunk, framed, lemma_chunk_utf8, lemma_framed_utf8, message_type_tag, shown, summed,
};

verus! {

/// An outbound message that is written field by field straight into its
/// body. It keeps no list of fields and offers no lookup.
#[derive(Clone)]
pub struct FixMessageWriter {
    fix_version: &'static str,
    body: FixMessageBodyBuilder,
}

impl FixMessageWriter {
    /// The protocol version, as bytes.
    pub closed spec fn version(&self) -> Seq<u8> {
        encode_utf8(self.fix_version@)
    }

    /// The body written so far: the message-type field and the fields added
    /// after it, in the order in which they were added.
    pub closed spec fn body(&self) -> Seq<u8> {
        self.body@
    }

    /// A message of the given version and type, with no payload field yet.
    pub fn new(fix_version: &'static str, message_type: &str) -> (r: Self)
        ensures
            r.version() == encode_utf8(fix_version@),
            r.body() == chunk(message_type_tag(), encode_utf8(message_type@)),
            valid_utf8(r.body()),
    {
        let mut body = FixMessageBodyBuilder::new();
        body.append(FIX_MESSAGE_TYPE, message_type);
        proof {
            lemma_tag_texts();
            lemma_ascii_is_utf8(message_type_tag());
            encode_utf8_valid_utf8(message_type@);
            lemma_chunk_utf8(message_type_tag(), encode_utf8(message_type@));
            assert(body@ =~= chunk(message_type_tag(), encode_utf8(message_type@)));
        }
        Self { fix_version, body }
    }

    /// Appends the field `key=value` to the body.
    pub fn with_value(&mut self, key: &str, value: &str)
        ensures
            final(self).version() == old(self).version(),
            final(self).body() == old(self).body() + chunk(
                encode_utf8(key@),
                encode_utf8(value@),
            ),
            valid_utf8(old(self).body()) ==> valid_utf8(final(self).body()),
    {
        proof {
            encode_utf8_valid_utf8(key@);
            encode_utf8_valid_utf8(value@);
            lemma_chunk_utf8(encode_utf8(key@), encode_utf8(value@));
            if valid_utf8(self.body@) {
                valid_utf8_concat(self.body@, chunk(encode_utf8(key@), encode_utf8(value@)));
            }
        }
        self.body.append(key, value);
    }

    /// The bytes of the message: version field, body-length field, body,
    /// checksum field.
    pub fn compile_message(&self) -> (result: Vec<u8>)
        ensures
            result@ == framed(self.version(), self.body()),
    {
        let mut result: Vec<u8> = Vec::new();
        write_fix_chunk(&mut result, FIX_VERSION, self.fix_version);
        write_body_len(&mut result, self.body.len());
        append_bytes(&mut result, self.body.as_slice());
        let check_sum = self.body.get_checksum(self.fix_version);
        proof {
            lemma_tag_texts();
            assert(result@ =~= summed(self.version(), self.body()));
        }
        write_fix_chunk(&mut result, FIX_CHECK_SUM, check_sum.as_str());
        result
    }

    /// The message in its textual form, with `|` in place of each delimiter.
    /// The body of a writer that `new` made is always well-formed UTF-8.
    pub fn to_string(&self) -> (r: String)
        requires
            valid_utf8(self.body()),
        ensures
            encode_utf8(r@) == shown(framed(self.version(), self.body())),
    {
        let result = self.compile_message();
        proof {
            encode_utf8_valid_utf8(self.fix_version@);
            lemma_framed_utf8(self.version(), self.body());
        }
        bytes_to_fix_string(result.as_slice())
    }
}

} // verus!
