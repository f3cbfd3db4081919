use vstd::prelude::*;
use vstd::utf8::*;
use crate::scan::{append_bytes, check_sum_bytes};
use crate::text::{lemma_ascii_is_utf8, string_from_utf8};
use crate::utils::{write_body_len, write_fix_chunk, FIX_DELIMITER, FIX_EQUALS};
use crate::wire::{check_sum_digits, chunk, summed};

verus! {

/// The body of a message while it is put together: the bytes of the fields
/// appended so far, in the order in which they came.
#[derive(Clone)]
pub struct FixMessageBodyBuilder {
    data: Vec<u8>,
}

impl View for FixMessageBodyBuilder {
    type V = Seq<u8>;

    closed spec fn view(&self) -> Seq<u8> {
        self.data@
    }
}

impl FixMessageBodyBuilder {
    /// A body without fields.
    pub fn new() -> (r: Self)
        ensures
            r@ == Seq::<u8>::empty(),
    {
        Self { data: Vec::new() }
    }

    /// Appends the field `key=value`.
    pub fn append(&mut self, key: &str, value: &str)
        ensures
            final(self)@ == old(self)@ + chunk(encode_utf8(key@), encode_utf8(value@)),
    {
        write_fix_chunk(&mut self.data, key, value);
    }

    /// Appends the field whose tag and value are the given bytes.
    pub(crate) fn append_raw(&mut self, key: &[u8], value: &[u8])
        ensures
            final(self)@ == old(self)@ + chunk(key@, value@),
    {
        append_bytes(&mut self.data, key);
        self.data.push(FIX_EQUALS);
        append_bytes(&mut self.data, value);
        self.data.push(FIX_DELIMITER);
        assert(self.data@ =~= old(self).data@ + chunk(key@, value@));
    }

    /// The checksum digits of the message that has this body and the given
    /// version.
    pub(crate) fn check_sum_of(&self, fix_version: &[u8]) -> (r: Vec<u8>)
        ensures
            r@ == check_sum_digits(summed(fix_version@, self@)),
    {
        let mut to_calc_check_sum: Vec<u8> = Vec::new();
        to_calc_check_sum.push(0x38);
        to_calc_check_sum.push(FIX_EQUALS);
        append_bytes(&mut to_calc_check_sum, fix_version);
        to_calc_check_sum.push(FIX_DELIMITER);
        write_body_len(&mut to_calc_check_sum, self.data.len());
        append_bytes(&mut to_calc_check_sum, self.data.as_slice());
        assert(to_calc_check_sum@ =~= summed(fix_version@, self@));
        check_sum_bytes(to_calc_check_sum.as_slice())
    }

    /// The checksum of the message that has this body and the given version:
    /// computed over the version field, the body-length field and the body.
    pub fn get_checksum(&self, fix_version: &str) -> (r: String)
        ensures
            encode_utf8(r@) == check_sum_digits(summed(encode_utf8(fix_version@), self@)),
    {
        let digits: Vec<u8> = self.check_sum_of(fix_version.as_bytes());
        proof {
            lemma_ascii_is_utf8(digits@);
        }
        string_from_utf8(digits.as_slice())
    }

    /// The bytes of the body.
    pub fn as_slice(&self) -> (r: &[u8])
        ensures
            r@ == self@,
    {
        self.data.as_slice()
    }

    /// The length of the body in bytes.
    pub fn len(&self) -> (r: usize)
        ensures
            r == self@.len(),
    {
        self.data.len()
    }
}

} // verus!
