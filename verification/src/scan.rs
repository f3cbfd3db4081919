//! Loops over bytes that the rest of the library shares.

use vstd::prelude::*;
use vstd::slice::slice_subrange;
use crate::utils::{FIX_DELIMITER, FIX_EQUALS, FIX_TEXT_DELIMITER};
use crate::wire::{
    body_len_tag, byte_sum, check_sum_digits, check_sum_tag, decimal, first_index, item_key,
    item_value, lemma_first_index, lemma_first_index_is, lemma_position_is, message_type_tag,
    pairs_view, position, shown, version_tag,
};

verus! {

/// Finds the first `b` at or after `start`.
pub(crate) fn find_from(data: &[u8], start: usize, b: u8) -> (k: usize)
    requires
        start <= data@.len(),
    ensures
        start <= k <= data@.len(),
        k - start == first_index(data@.subrange(start as int, data@.len() as int), b),
{
    let mut k: usize = start;
    while k < data.len() && data[k] != b
        invariant
            start <= k <= data@.len(),
            forall|i: int| start <= i < k ==> data@[i] != b,
        decreases data@.len() - k,
    {
        k += 1;
    }
    proof {
        let rest = data@.subrange(start as int, data@.len() as int);
        lemma_first_index_is(rest, b, k - start);
    }
    k
}

/// Compares two byte strings.
pub(crate) fn bytes_eq(a: &[u8], b: &[u8]) -> (r: bool)
    ensures
        r == (a@ == b@),
{
    if a.len() != b.len() {
        return false;
    }
    let mut i: usize = 0;
    while i < a.len()
        invariant
            a@.len() == b@.len(),
            i <= a@.len(),
            forall|j: int| 0 <= j < i ==> a@[j] == b@[j],
        decreases a@.len() - i,
    {
        if a[i] != b[i] {
            return false;
        }
        i += 1;
    }
    assert(a@ =~= b@);
    true
}

/// Divides a field into tag and value.
pub(crate) fn split_item<'a>(field: &'a [u8]) -> (r: (&'a [u8], &'a [u8]))
    ensures
        r.0@ == item_key(field@),
        r.1@ == item_value(field@),
{
    let len: usize = field.len();
    let index: usize = find_from(field, 0, FIX_EQUALS);
    proof {
        assert(field@.subrange(0, len as int) =~= field@);
        lemma_first_index(field@, FIX_EQUALS);
    }
    let key: &'a [u8] = slice_subrange(field, 0, index);
    if index < len {
        (key, slice_subrange(field, index + 1, len))
    } else {
        let value: &'a [u8] = slice_subrange(field, len, len);
        assert(value@ =~= item_value(field@));
        (key, value)
    }
}

/// Index of the first pair with tag `key`, or the number of pairs.
pub(crate) fn find_tag(data: &Vec<(Vec<u8>, Vec<u8>)>, key: &[u8]) -> (i: usize)
    ensures
        i == position(pairs_view(data@), key@),
        i <= data@.len(),
{
    let mut i: usize = 0;
    while i < data.len()
        invariant
            i <= data@.len(),
            forall|j: int| 0 <= j < i ==> pairs_view(data@)[j].0 != key@,
        decreases data@.len() - i,
    {
        if bytes_eq(data[i].0.as_slice(), key) {
            proof {
                lemma_position_is(pairs_view(data@), key@, i as int);
            }
            return i;
        }
        i += 1;
    }
    proof {
        lemma_position_is(pairs_view(data@), key@, i as int);
    }
    i
}

pub(crate) fn is_version_tag(key: &[u8]) -> (r: bool)
    ensures
        r == (key@ == version_tag()),
{
    let r = key.len() == 1 && key[0] == 0x38;
    assert(r ==> key@ =~= version_tag());
    r
}

pub(crate) fn is_body_len_tag(key: &[u8]) -> (r: bool)
    ensures
        r == (key@ == body_len_tag()),
{
    let r = key.len() == 1 && key[0] == 0x39;
    assert(r ==> key@ =~= body_len_tag());
    r
}

pub(crate) fn is_check_sum_tag(key: &[u8]) -> (r: bool)
    ensures
        r == (key@ == check_sum_tag()),
{
    let r = key.len() == 2 && key[0] == 0x31 && key[1] == 0x30;
    assert(r ==> key@ =~= check_sum_tag());
    r
}

pub(crate) fn is_message_type_tag(key: &[u8]) -> (r: bool)
    ensures
        r == (key@ == message_type_tag()),
{
    let r = key.len() == 2 && key[0] == 0x33 && key[1] == 0x35;
    assert(r ==> key@ =~= message_type_tag());
    r
}

/// Appends the bytes of `src` to `out`.
pub(crate) fn append_bytes(out: &mut Vec<u8>, src: &[u8])
    ensures
        final(out)@ == old(out)@ + src@,
{
    let mut i: usize = 0;
    while i < src.len()
        invariant
            i <= src@.len(),
            out@ == old(out)@ + src@.subrange(0, i as int),
        decreases src@.len() - i,
    {
        out.push(src[i]);
        i += 1;
        assert(out@ =~= old(out)@ + src@.subrange(0, i as int));
    }
    assert(src@.subrange(0, i as int) =~= src@);
}

/// Appends the decimal digits of `n` to `out`.
pub(crate) fn write_decimal(out: &mut Vec<u8>, n: u64)
    ensures
        final(out)@ == old(out)@ + decimal(n as nat),
    decreases n,
{
    if n >= 10 {
        write_decimal(out, n / 10);
    }
    out.push(0x30 + (n % 10) as u8);
    assert(out@ =~= old(out)@ + decimal(n as nat));
}

/// The three checksum digits of `body`, in a new buffer.
pub(crate) fn check_sum_bytes(body: &[u8]) -> (r: Vec<u8>)
    ensures
        r@ == check_sum_digits(body@),
{
    let mut sum: u32 = 0;
    let mut i: usize = 0;
    while i < body.len()
        invariant
            i <= body@.len(),
            sum == byte_sum(body@.subrange(0, i as int)) % 256,
        decreases body@.len() - i,
    {
        proof {
            let next = body@.subrange(0, i + 1);
            assert(next.drop_last() =~= body@.subrange(0, i as int));
            assert(next.last() == body@[i as int]);
        }
        sum = (sum + body[i] as u32) % 256;
        i += 1;
    }
    assert(body@.subrange(0, i as int) =~= body@);
    let mut r: Vec<u8> = Vec::new();
    r.push(0x30 + (sum / 100) as u8);
    r.push(0x30 + (sum / 10 % 10) as u8);
    r.push(0x30 + (sum % 10) as u8);
    assert(r@ =~= check_sum_digits(body@));
    r
}

/// Copies `data` with every delimiter byte replaced by `|`.
pub(crate) fn shown_bytes(data: &[u8]) -> (r: Vec<u8>)
    ensures
        r@ == shown(data@),
{
    let mut r: Vec<u8> = Vec::new();
    let mut i: usize = 0;
    while i < data.len()
        invariant
            i <= data@.len(),
            r@ == shown(data@.subrange(0, i as int)),
        decreases data@.len() - i,
    {
        if data[i] == FIX_DELIMITER {
            r.push(FIX_TEXT_DELIMITER);
        } else {
            r.push(data[i]);
        }
        i += 1;
        assert(r@ =~= shown(data@.subrange(0, i as int)));
    }
    assert(data@.subrange(0, i as int) =~= data@);
    r
}

} // verus!
