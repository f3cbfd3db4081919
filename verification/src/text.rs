//! Conversion between bytes and strings, and the facts about UTF-8 that the
//! message types rely on.

use vstd::prelude::*;
use vstd::utf8::*;

verus! {

/// Calls `core::str::from_utf8`. Not verified: the contract restates the
/// documented behaviour of that function. It succeeds exactly on well-formed
/// UTF-8, and the string it returns consists of the very bytes it was given.
#[verifier::external_body]
pub(crate) fn str_from_utf8<'a>(bytes: &'a [u8]) -> (r: Option<&'a str>)
    ensures
        r is Some <==> valid_utf8(bytes@),
        r matches Some(s) ==> encode_utf8(s@) == bytes@,
{
    match core::str::from_utf8(bytes) {
        Ok(s) => Some(s),
        Err(_) => None,
    }
}

/// Tells whether the bytes are well-formed UTF-8.
pub fn is_utf8(bytes: &[u8]) -> (r: bool)
    ensures
        r == valid_utf8(bytes@),
{
    str_from_utf8(bytes).is_some()
}

/// The bytes of each of the strings.
pub open spec fn strings_bytes(texts: Seq<String>) -> Seq<Seq<u8>> {
    texts.map_values(|s: String| encode_utf8(s@))
}

/// The bytes of each of the borrowed strings.
pub open spec fn strs_bytes(texts: Seq<&str>) -> Seq<Seq<u8>> {
    texts.map_values(|s: &str| encode_utf8(s@))
}

/// The bytes of each of the borrowed buffers.
pub open spec fn vecs_bytes(buffers: Seq<&Vec<u8>>) -> Seq<Seq<u8>> {
    buffers.map_values(|v: &Vec<u8>| v@)
}

/// True when every byte is below 0x80.
pub open spec fn all_ascii(bytes: Seq<u8>) -> bool {
    forall|i: int| 0 <= i < bytes.len() ==> #[trigger] bytes[i] < 0x80
}

/// A sequence of ASCII bytes is well-formed UTF-8.
pub proof fn lemma_ascii_is_utf8(bytes: Seq<u8>)
    requires
        all_ascii(bytes),
    ensures
        valid_utf8(bytes),
{
    assert(bytes.subrange(0, 0) =~= Seq::<u8>::empty());
    assert(partial_valid_utf8(bytes, 0));
    assert forall|i: int| 0 <= i < bytes.len() implies #[trigger] is_leading_byte_width_1(
        bytes[i],
    ) by {
        assert(bytes[i] < 0x80);
    }
    partial_valid_utf8_extend_ascii_block(bytes, 0, bytes.len() as int);
    assert(bytes.subrange(0, bytes.len() as int) =~= bytes);
}

/// Cutting well-formed UTF-8 at an ASCII byte leaves well-formed UTF-8 on
/// both sides of that byte.
pub proof fn lemma_utf8_cut_at_ascii(bytes: Seq<u8>, k: int)
    requires
        valid_utf8(bytes),
        0 <= k < bytes.len(),
        bytes[k] < 0x80,
    ensures
        valid_utf8(bytes.subrange(0, k)),
        valid_utf8(bytes.subrange(k + 1, bytes.len() as int)),
{
    is_char_boundary_iff_not_is_continuation_byte(bytes, k);
    valid_utf8_split(bytes, k);
    let right = bytes.subrange(k, bytes.len() as int);
    assert(right.len() > 0);
    assert(right[0] == bytes[k]);
    assert(is_leading_byte_width_1(right[0]));
    assert(length_of_first_scalar(right) == 1);
    assert(pop_first_scalar(right) =~= bytes.subrange(k + 1, bytes.len() as int));
}

/// Well-formed UTF-8 bytes as an owned string.
pub(crate) fn string_from_utf8(bytes: &[u8]) -> (r: String)
    requires
        valid_utf8(bytes@),
    ensures
        encode_utf8(r@) == bytes@,
{
    let s: &str = str_from_utf8(bytes).unwrap();
    s.to_owned()
}

} // verus!
