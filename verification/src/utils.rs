//! Constants of the wire format and the functions that write its pieces.

use vstd::prelude::*;
use vstd::utf8::*;
use vstd::slice::{slice_subrange, slice_to_vec};
use crate::scan::{
    append_bytes, check_sum_bytes, find_from, shown_bytes, split_item, write_decimal,
};
use crate::text::{lemma_ascii_is_utf8, string_from_utf8};
use crate::wire::{
    after_first_field, body_len_tag, check_sum_digits, check_sum_tag, chunk, decimal, first_field,
    item, items, lemma_first_index, lemma_items_step, lemma_shown_utf8, message_type_tag,
    pairs_view, shown, version_tag,
};

verus! {

/// The byte between a tag and its value.
pub const FIX_EQUALS: u8 = 0x3d;

/// The byte that ends a field on the wire.
pub const FIX_DELIMITER: u8 = 0x1;

/// The character between a tag and its value.
pub const FIX_EQUALS_STR: char = '=';

/// The character that stands for the delimiter in the textual form.
pub const FIX_DELIMITER_STR: char = '|';

/// The byte of `FIX_DELIMITER_STR`.
pub const FIX_TEXT_DELIMITER: u8 = 0x7c;

/// The tag of the protocol version.
pub const FIX_VERSION: &'static str = "8";

/// The tag of the body length.
pub const FIX_BODY_LEN: &'static str = "9";

/// The tag of the checksum.
pub const FIX_CHECK_SUM: &'static str = "10";

/// The tag of the message type.
pub const FIX_MESSAGE_TYPE: &'static str = "35";

/// The tag constants, as bytes, are the tags of the model.
pub proof fn lemma_tag_texts()
    ensures
        encode_utf8(FIX_VERSION@) == version_tag(),
        encode_utf8(FIX_BODY_LEN@) == body_len_tag(),
        encode_utf8(FIX_CHECK_SUM@) == check_sum_tag(),
        encode_utf8(FIX_MESSAGE_TYPE@) == message_type_tag(),
{
    reveal_strlit("8");
    reveal_strlit("9");
    reveal_strlit("10");
    reveal_strlit("35");
    is_ascii_chars_encode_utf8(FIX_VERSION@);
    is_ascii_chars_encode_utf8(FIX_BODY_LEN@);
    is_ascii_chars_encode_utf8(FIX_CHECK_SUM@);
    is_ascii_chars_encode_utf8(FIX_MESSAGE_TYPE@);
    assert(encode_utf8(FIX_VERSION@) =~= version_tag());
    assert(encode_utf8(FIX_BODY_LEN@) =~= body_len_tag());
    assert(encode_utf8(FIX_CHECK_SUM@) =~= check_sum_tag());
    assert(encode_utf8(FIX_MESSAGE_TYPE@) =~= message_type_tag());
}

/// The checksum of `body`: the sum of its bytes modulo 256, written as three
/// decimal digits.
pub fn calculate_check_sum(body: &[u8]) -> (r: String)
    ensures
        encode_utf8(r@) == check_sum_digits(body@),
{
    let digits: Vec<u8> = check_sum_bytes(body);
    proof {
        lemma_ascii_is_utf8(digits@);
    }
    string_from_utf8(digits.as_slice())
}

/// A new buffer that holds the one field `key=value`.
pub fn compile_fix_chunk(key: &[u8], value: &[u8]) -> (result: Vec<u8>)
    ensures
        result@ == chunk(key@, value@),
{
    let mut result: Vec<u8> = Vec::new();
    append_bytes(&mut result, key);
    result.push(FIX_EQUALS);
    append_bytes(&mut result, value);
    result.push(FIX_DELIMITER);
    assert(result@ =~= chunk(key@, value@));
    result
}

/// Appends the field `key=value` to `out`.
pub fn write_fix_chunk(out: &mut Vec<u8>, key: &str, value: &str)
    ensures
        final(out)@ == old(out)@ + chunk(encode_utf8(key@), encode_utf8(value@)),
{
    append_bytes(out, key.as_bytes());
    out.push(FIX_EQUALS);
    append_bytes(out, value.as_bytes());
    out.push(FIX_DELIMITER);
    assert(out@ =~= old(out)@ + chunk(encode_utf8(key@), encode_utf8(value@)));
}

/// Appends the body-length field for a body of `body_len` bytes to `out`.
pub fn write_body_len(out: &mut Vec<u8>, body_len: usize)
    ensures
        final(out)@ == old(out)@ + chunk(body_len_tag(), decimal(body_len as nat)),
{
    out.push(0x39);
    out.push(FIX_EQUALS);
    write_decimal(out, body_len as u64);
    out.push(FIX_DELIMITER);
    assert(out@ =~= old(out)@ + chunk(body_len_tag(), decimal(body_len as nat)));
}

/// The textual form of a message: its bytes with `|` in place of each
/// delimiter, as a string.
pub fn bytes_to_fix_string(data: &[u8]) -> (r: String)
    requires
        valid_utf8(data@),
    ensures
        encode_utf8(r@) == shown(data@),
{
    let text: Vec<u8> = shown_bytes(data);
    proof {
        lemma_shown_utf8(data@);
    }
    string_from_utf8(text.as_slice())
}

/// Divides a message into its fields, each a pair of tag and value, in wire
/// order. The tag is what stands before the first `=` of a field, the value
/// what stands after it; a field without `=` is a tag with an empty value.
/// Bytes after the last delimiter belong to no field.
pub fn split_fix_to_tags(fix: &[u8]) -> (result: Vec<(Vec<u8>, Vec<u8>)>)
    ensures
        pairs_view(result@) == items(fix@, FIX_DELIMITER),
{
    let mut result: Vec<(Vec<u8>, Vec<u8>)> = Vec::new();
    let len: usize = fix.len();
    let mut start: usize = 0;
    proof {
        assert(fix@.subrange(0, len as int) =~= fix@);
        assert(pairs_view(result@) =~= Seq::<(Seq<u8>, Seq<u8>)>::empty());
    }
    loop
        invariant
            len == fix@.len(),
            start <= len,
            items(fix@, FIX_DELIMITER) == pairs_view(result@) + items(
                fix@.subrange(start as int, len as int),
                FIX_DELIMITER,
            ),
        ensures
            pairs_view(result@) == items(fix@, FIX_DELIMITER),
        decreases len - start,
    {
        let ghost rest = fix@.subrange(start as int, len as int);
        let ghost before = pairs_view(result@);
        proof {
            lemma_first_index(rest, FIX_DELIMITER);
            lemma_items_step(rest, FIX_DELIMITER);
        }
        let end: usize = find_from(fix, start, FIX_DELIMITER);
        if end >= len {
            break ;
        }
        let field: &[u8] = slice_subrange(fix, start, end);
        let (key, value) = split_item(field);
        result.push((slice_to_vec(key), slice_to_vec(value)));
        proof {
            assert(field@ =~= first_field(rest, FIX_DELIMITER));
            assert(fix@.subrange(end + 1, len as int) =~= after_first_field(rest, FIX_DELIMITER));
            assert(pairs_view(result@) =~= before.push(item(field@)));
            assert(before + (seq![item(field@)] + items(
                after_first_field(rest, FIX_DELIMITER),
                FIX_DELIMITER,
            )) =~= before.push(item(field@)) + items(
                after_first_field(rest, FIX_DELIMITER),
                FIX_DELIMITER,
            ));
        }
        start = end + 1;
    }
    result
}

/// The textual form of a message that the caller hands over.
pub fn convert_fix_message_to_string(src: Vec<u8>) -> (r: String)
    requires
        valid_utf8(src@),
    ensures
        encode_utf8(r@) == shown(src@),
{
    bytes_to_fix_string(src.as_slice())
}

} // verus!
