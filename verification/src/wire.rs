//! The mathematical model of the wire format: the bytes of a field and of a
//! message, the checksum, and how a buffer divides into fields, and a field
//! into a tag and a value.

use vstd::prelude::*;
use vstd::utf8::*;
use crate::text::{all_ascii, lemma_ascii_is_utf8, lemma_utf8_cut_at_ascii};
use crate::utils::{FIX_DELIMITER, FIX_EQUALS, FIX_TEXT_DELIMITER};

verus! {

/// The tag of the protocol version, `8`.
pub open spec fn version_tag() -> Seq<u8> {
    seq![0x38u8]
}

/// The tag of the body length, `9`.
pub open spec fn body_len_tag() -> Seq<u8> {
    seq![0x39u8]
}

/// The tag of the checksum, `10`.
pub open spec fn check_sum_tag() -> Seq<u8> {
    seq![0x31u8, 0x30u8]
}

/// The tag of the message type, `35`.
pub open spec fn message_type_tag() -> Seq<u8> {
    seq![0x33u8, 0x35u8]
}

/// No two of the four tags are the same.
pub proof fn lemma_tags_differ()
    ensures
        version_tag() != body_len_tag(),
        version_tag() != check_sum_tag(),
        version_tag() != message_type_tag(),
        body_len_tag() != check_sum_tag(),
        body_len_tag() != message_type_tag(),
        check_sum_tag() != message_type_tag(),
{
    assert(version_tag()[0] != body_len_tag()[0]);
    assert(version_tag().len() != check_sum_tag().len());
    assert(version_tag().len() != message_type_tag().len());
    assert(body_len_tag().len() != check_sum_tag().len());
    assert(body_len_tag().len() != message_type_tag().len());
    assert(check_sum_tag()[0] != message_type_tag()[0]);
}

/// One field on the wire: tag, `=`, value, delimiter.
pub open spec fn chunk(key: Seq<u8>, value: Seq<u8>) -> Seq<u8> {
    key + seq![FIX_EQUALS] + value + seq![FIX_DELIMITER]
}

/// The fields one after the other, each as it stands on the wire.
pub open spec fn chunks(fields: Seq<(Seq<u8>, Seq<u8>)>) -> Seq<u8>
    decreases fields.len(),
{
    if fields.len() == 0 {
        Seq::empty()
    } else {
        chunks(fields.drop_last()) + chunk(fields.last().0, fields.last().1)
    }
}

/// The body of a message: the message-type field, then the payload fields.
pub open spec fn body(message_type: Seq<u8>, fields: Seq<(Seq<u8>, Seq<u8>)>) -> Seq<u8> {
    chunk(message_type_tag(), message_type) + chunks(fields)
}

/// What precedes the body: the version field and the body-length field.
pub open spec fn header(version: Seq<u8>, body_len: nat) -> Seq<u8> {
    chunk(version_tag(), version) + chunk(body_len_tag(), decimal(body_len))
}

/// The part of a message that its checksum covers: header and body.
pub open spec fn summed(version: Seq<u8>, body: Seq<u8>) -> Seq<u8> {
    header(version, body.len()) + body
}

/// A whole message around `body`: header, body, checksum field.
pub open spec fn framed(version: Seq<u8>, body: Seq<u8>) -> Seq<u8> {
    summed(version, body) + chunk(check_sum_tag(), check_sum_digits(summed(version, body)))
}

/// The bytes of the message with the given version, type and payload fields.
pub open spec fn message(
    version: Seq<u8>,
    message_type: Seq<u8>,
    fields: Seq<(Seq<u8>, Seq<u8>)>,
) -> Seq<u8> {
    framed(version, body(message_type, fields))
}

/// The sum of the bytes.
pub open spec fn byte_sum(bytes: Seq<u8>) -> nat
    decreases bytes.len(),
{
    if bytes.len() == 0 {
        0
    } else {
        byte_sum(bytes.drop_last()) + bytes.last() as nat
    }
}

/// The ASCII digit that stands for `d`, where `0 <= d < 10`.
pub open spec fn digit(d: int) -> u8 {
    (0x30 + d) as u8
}

/// The checksum of `bytes` as a number: their sum modulo 256.
pub open spec fn check_sum_value(bytes: Seq<u8>) -> int {
    (byte_sum(bytes) % 256) as int
}

/// The checksum of `bytes` as it stands on the wire: three decimal digits,
/// padded with zeros on the left.
pub open spec fn check_sum_digits(bytes: Seq<u8>) -> Seq<u8> {
    let s = check_sum_value(bytes);
    seq![digit(s / 100), digit(s / 10 % 10), digit(s % 10)]
}

/// The decimal digits of `n`, most significant first.
pub open spec fn decimal(n: nat) -> Seq<u8>
    decreases n,
{
    if n < 10 {
        seq![digit(n as int)]
    } else {
        decimal(n / 10).push(digit((n % 10) as int))
    }
}

/// The decimal form of an integer, with a leading `-` where it is negative.
pub open spec fn signed_decimal(k: int) -> Seq<u8> {
    if k < 0 {
        seq![0x2du8] + decimal((-k) as nat)
    } else {
        decimal(k as nat)
    }
}

/// The byte that stands for `b` in the textual form.
pub open spec fn shown_byte(b: u8) -> u8 {
    if b == FIX_DELIMITER {
        FIX_TEXT_DELIMITER
    } else {
        b
    }
}

/// The textual form of wire bytes: every delimiter byte replaced by `|`.
pub open spec fn shown(bytes: Seq<u8>) -> Seq<u8> {
    Seq::new(bytes.len(), |i: int| shown_byte(bytes[i]))
}

/// Index of the first occurrence of `b` in `s`, or `s.len()` where `s` does
/// not hold `b`.
pub open spec fn first_index(s: Seq<u8>, b: u8) -> int
    decreases s.len(),
{
    if s.len() == 0 {
        0
    } else if s[0] == b {
        0
    } else {
        1 + first_index(s.drop_first(), b)
    }
}

/// `first_index` lies within the sequence, nothing before it equals `b`, and
/// the byte at it does.
pub proof fn lemma_first_index(s: Seq<u8>, b: u8)
    ensures
        0 <= first_index(s, b) <= s.len(),
        forall|i: int| 0 <= i < first_index(s, b) ==> s[i] != b,
        first_index(s, b) < s.len() ==> s[first_index(s, b)] == b,
        first_index(s, b) < s.len() <==> s.contains(b),
    decreases s.len(),
{
    if s.len() != 0 && s[0] != b {
        let t = s.drop_first();
        lemma_first_index(t, b);
        assert forall|i: int| 0 <= i < first_index(s, b) implies s[i] != b by {
            if i > 0 {
                assert(s[i] == t[i - 1]);
            }
        }
        if first_index(s, b) < s.len() {
            assert(s[first_index(s, b)] == t[first_index(t, b)]);
        }
        if s.contains(b) {
            let j = choose|j: int| 0 <= j < s.len() && s[j] == b;
            assert(t[j - 1] == b);
        }
    } else if s.len() != 0 {
        assert(s[0] == b);
    }
}

/// The index at which `b` first occurs is `first_index`.
pub proof fn lemma_first_index_is(s: Seq<u8>, b: u8, k: int)
    requires
        0 <= k <= s.len(),
        forall|i: int| 0 <= i < k ==> s[i] != b,
        k < s.len() ==> s[k] == b,
    ensures
        first_index(s, b) == k,
{
    lemma_first_index(s, b);
    let f = first_index(s, b);
    if f < k {
        assert(s[f] != b);
    } else if k < f {
        assert(s[k] == b);
    }
}

/// The complete fields of `data`, in order: each stretch of bytes that a
/// delimiter `d` ends, without that delimiter.
pub open spec fn fields(data: Seq<u8>, d: u8) -> Seq<Seq<u8>>
    decreases data.len(),
{
    let k = first_index(data, d);
    if 0 <= k < data.len() {
        seq![data.subrange(0, k)] + fields(data.subrange(k + 1, data.len() as int), d)
    } else {
        Seq::empty()
    }
}

/// True when bytes follow the last delimiter: the buffer ends inside a field.
pub open spec fn truncated(data: Seq<u8>, d: u8) -> bool {
    data.len() > 0 && data.last() != d
}

/// The first field of `data`, where `data` holds a delimiter.
pub open spec fn first_field(data: Seq<u8>, d: u8) -> Seq<u8> {
    data.subrange(0, first_index(data, d))
}

/// What follows the first field and its delimiter.
pub open spec fn after_first_field(data: Seq<u8>, d: u8) -> Seq<u8> {
    data.subrange(first_index(data, d) + 1, data.len() as int)
}

/// A buffer that holds a delimiter is its first field followed by the fields
/// of the rest, and it is truncated exactly if the rest is. A buffer without
/// a delimiter has no complete field.
pub proof fn lemma_fields_step(data: Seq<u8>, d: u8)
    ensures
        data.contains(d) ==> {
            &&& 0 <= first_index(data, d) < data.len()
            &&& fields(data, d) == seq![first_field(data, d)] + fields(
                after_first_field(data, d),
                d,
            )
            &&& truncated(data, d) == truncated(after_first_field(data, d), d)
            &&& !first_field(data, d).contains(d)
        },
        !data.contains(d) ==> {
            &&& first_index(data, d) == data.len()
            &&& fields(data, d) == Seq::<Seq<u8>>::empty()
            &&& truncated(data, d) == (data.len() > 0)
        },
{
    lemma_first_index(data, d);
    if data.contains(d) {
        let k = first_index(data, d);
        let rest = after_first_field(data, d);
        if rest.len() > 0 {
            assert(rest.last() == data.last());
        }
    }
}

/// True when a field holds the byte that separates tag and value.
pub open spec fn is_item(field: Seq<u8>) -> bool {
    field.contains(FIX_EQUALS)
}

/// True when every complete field of `data` holds a `=`.
pub open spec fn all_items(data: Seq<u8>, d: u8) -> bool {
    forall|i: int| 0 <= i < fields(data, d).len() ==> is_item(#[trigger] fields(data, d)[i])
}

/// The tag of a field: what stands before the first `=`, or all of it where
/// there is none.
pub open spec fn item_key(field: Seq<u8>) -> Seq<u8> {
    field.subrange(0, first_index(field, FIX_EQUALS))
}

/// The value of a field: what stands after the first `=`, or nothing where
/// there is none.
pub open spec fn item_value(field: Seq<u8>) -> Seq<u8> {
    let k = first_index(field, FIX_EQUALS);
    if 0 <= k < field.len() {
        field.subrange(k + 1, field.len() as int)
    } else {
        Seq::empty()
    }
}

/// A field as a pair of tag and value.
pub open spec fn item(field: Seq<u8>) -> (Seq<u8>, Seq<u8>) {
    (item_key(field), item_value(field))
}

/// Each field as a pair of tag and value.
pub open spec fn items_of(fields: Seq<Seq<u8>>) -> Seq<(Seq<u8>, Seq<u8>)> {
    fields.map_values(|f: Seq<u8>| item(f))
}

/// The complete fields of `data`, each as a pair of tag and value, in order.
pub open spec fn items(data: Seq<u8>, d: u8) -> Seq<(Seq<u8>, Seq<u8>)> {
    items_of(fields(data, d))
}

/// The items of a buffer that holds a delimiter are the item of its first
/// field followed by the items of the rest.
pub proof fn lemma_items_step(data: Seq<u8>, d: u8)
    ensures
        data.contains(d) ==> items(data, d) == seq![item(first_field(data, d))] + items(
            after_first_field(data, d),
            d,
        ),
        !data.contains(d) ==> items(data, d) == Seq::<(Seq<u8>, Seq<u8>)>::empty(),
{
    lemma_fields_step(data, d);
    if data.contains(d) {
        assert(items(data, d) =~= seq![item(first_field(data, d))] + items(
            after_first_field(data, d),
            d,
        ));
    } else {
        assert(items(data, d) =~= Seq::<(Seq<u8>, Seq<u8>)>::empty());
    }
}

/// `s` without its last byte, where that byte is `d`.
pub open spec fn strip_end(s: Seq<u8>, d: u8) -> Seq<u8> {
    if s.len() > 0 && s.last() == d {
        s.drop_last()
    } else {
        s
    }
}

/// Index of the first field with tag `key`, or `fields.len()` where no
/// field has it.
pub open spec fn position(fields: Seq<(Seq<u8>, Seq<u8>)>, key: Seq<u8>) -> int
    decreases fields.len(),
{
    if fields.len() == 0 {
        0
    } else if fields[0].0 == key {
        0
    } else {
        1 + position(fields.drop_first(), key)
    }
}

/// `position` lies within the sequence, no field before it has the tag, and
/// the field at it does.
pub proof fn lemma_position(fields: Seq<(Seq<u8>, Seq<u8>)>, key: Seq<u8>)
    ensures
        0 <= position(fields, key) <= fields.len(),
        forall|i: int| 0 <= i < position(fields, key) ==> fields[i].0 != key,
        position(fields, key) < fields.len() ==> fields[position(fields, key)].0 == key,
    decreases fields.len(),
{
    if fields.len() != 0 && fields[0].0 != key {
        let t = fields.drop_first();
        lemma_position(t, key);
        assert forall|i: int| 0 <= i < position(fields, key) implies fields[i].0 != key by {
            if i > 0 {
                assert(fields[i] == t[i - 1]);
            }
        }
        if position(fields, key) < fields.len() {
            assert(fields[position(fields, key)] == t[position(t, key)]);
        }
    }
}

/// The index of the first field with the tag is `position`.
pub proof fn lemma_position_is(fields: Seq<(Seq<u8>, Seq<u8>)>, key: Seq<u8>, k: int)
    requires
        0 <= k <= fields.len(),
        forall|i: int| 0 <= i < k ==> fields[i].0 != key,
        k < fields.len() ==> fields[k].0 == key,
    ensures
        position(fields, key) == k,
{
    lemma_position(fields, key);
    let f = position(fields, key);
    if f < k {
        assert(fields[f].0 != key);
    } else if k < f {
        assert(fields[k].0 == key);
    }
}

/// True when some field has the tag `key`.
pub open spec fn has_tag(fields: Seq<(Seq<u8>, Seq<u8>)>, key: Seq<u8>) -> bool {
    position(fields, key) < fields.len()
}

/// The value of the first field with tag `key`.
pub open spec fn first_value(fields: Seq<(Seq<u8>, Seq<u8>)>, key: Seq<u8>) -> Seq<u8>
    recommends
        has_tag(fields, key),
{
    fields[position(fields, key)].1
}

/// The values of the fields with tag `key`, in the order of the fields.
pub open spec fn values_of(fields: Seq<(Seq<u8>, Seq<u8>)>, key: Seq<u8>) -> Seq<Seq<u8>>
    decreases fields.len(),
{
    if fields.len() == 0 {
        Seq::empty()
    } else {
        let before = values_of(fields.drop_last(), key);
        if fields.last().0 == key {
            before.push(fields.last().1)
        } else {
            before
        }
    }
}

/// What adding a field at the end does to `position`.
pub proof fn lemma_position_push(
    fields: Seq<(Seq<u8>, Seq<u8>)>,
    field: (Seq<u8>, Seq<u8>),
    key: Seq<u8>,
)
    ensures
        has_tag(fields.push(field), key) == (has_tag(fields, key) || field.0 == key),
        has_tag(fields, key) ==> position(fields.push(field), key) == position(fields, key),
        !has_tag(fields, key) ==> position(fields.push(field), key) >= fields.len(),
{
    lemma_position(fields, key);
    let longer = fields.push(field);
    if has_tag(fields, key) {
        lemma_position_is(longer, key, position(fields, key));
    } else if field.0 == key {
        lemma_position_is(longer, key, fields.len() as int);
    } else {
        lemma_position_is(longer, key, fields.len() as int + 1);
    }
}

/// The value of the last field with tag `key`.
pub open spec fn last_value(fields: Seq<(Seq<u8>, Seq<u8>)>, key: Seq<u8>) -> Seq<u8>
    recommends
        has_tag(fields, key),
{
    values_of(fields, key).last()
}

/// True for the tags that frame a message and are no payload: version, body
/// length and checksum.
pub open spec fn is_framing(tag: Seq<u8>) -> bool {
    tag == version_tag() || tag == body_len_tag() || tag == check_sum_tag()
}

/// The fields that are payload, in their order: all but the framing ones.
pub open spec fn payload(fields: Seq<(Seq<u8>, Seq<u8>)>) -> Seq<(Seq<u8>, Seq<u8>)>
    decreases fields.len(),
{
    if fields.len() == 0 {
        Seq::empty()
    } else if is_framing(fields.last().0) {
        payload(fields.drop_last())
    } else {
        payload(fields.drop_last()).push(fields.last())
    }
}

/// The payload fields among `fields`, the one at index `skip` left out.
pub open spec fn payload_without(fields: Seq<(Seq<u8>, Seq<u8>)>, skip: int) -> Seq<
    (Seq<u8>, Seq<u8>),
>
    decreases fields.len(),
{
    if fields.len() == 0 {
        Seq::empty()
    } else if fields.len() - 1 == skip || is_framing(fields.last().0) {
        payload_without(fields.drop_last(), skip)
    } else {
        payload_without(fields.drop_last(), skip).push(fields.last())
    }
}

/// Leaving a field out while collecting the payload is collecting the
/// payload of the fields without it.
pub proof fn lemma_payload_without(fields: Seq<(Seq<u8>, Seq<u8>)>, skip: int)
    ensures
        0 <= skip < fields.len() ==> payload_without(fields, skip) == payload(
            fields.remove(skip),
        ),
        skip >= fields.len() ==> payload_without(fields, skip) == payload(fields),
    decreases fields.len(),
{
    if fields.len() > 0 {
        lemma_payload_without(fields.drop_last(), skip);
        if skip == fields.len() - 1 {
            assert(fields.remove(skip) =~= fields.drop_last());
        } else if 0 <= skip < fields.len() {
            assert(fields.remove(skip).drop_last() =~= fields.drop_last().remove(skip));
            assert(fields.remove(skip).last() == fields.last());
        }
    }
}

/// The fields that a list of owned pairs stands for.
pub open spec fn pairs_view(data: Seq<(Vec<u8>, Vec<u8>)>) -> Seq<(Seq<u8>, Seq<u8>)> {
    Seq::new(data.len(), |i: int| (data[i].0@, data[i].1@))
}

/// True for bytes that can stand as a tag: they hold neither `=` nor the
/// delimiter.
pub open spec fn is_tag(key: Seq<u8>) -> bool {
    !key.contains(FIX_EQUALS) && !key.contains(FIX_DELIMITER)
}

/// True for bytes that can stand as a value: they do not hold the delimiter.
pub open spec fn is_value(value: Seq<u8>) -> bool {
    !value.contains(FIX_DELIMITER)
}

/// True for a list of payload fields: each has a tag that is no framing tag
/// and a value.
pub open spec fn are_payload(fields: Seq<(Seq<u8>, Seq<u8>)>) -> bool {
    forall|i: int|
        0 <= i < fields.len() ==> {
            &&& is_tag((#[trigger] fields[i]).0)
            &&& is_value(fields[i].1)
            &&& !is_framing(fields[i].0)
        }
}

/// The decimal digits of a number are ASCII.
pub proof fn lemma_decimal_ascii(n: nat)
    ensures
        all_ascii(decimal(n)),
        decimal(n).len() > 0,
    decreases n,
{
    if n >= 10 {
        lemma_decimal_ascii(n / 10);
    }
}

/// A field whose tag and value are well-formed UTF-8 is well-formed UTF-8.
pub proof fn lemma_chunk_utf8(key: Seq<u8>, value: Seq<u8>)
    requires
        valid_utf8(key),
        valid_utf8(value),
    ensures
        valid_utf8(chunk(key, value)),
{
    lemma_ascii_is_utf8(seq![FIX_EQUALS]);
    lemma_ascii_is_utf8(seq![FIX_DELIMITER]);
    valid_utf8_concat(key, seq![FIX_EQUALS]);
    valid_utf8_concat(key + seq![FIX_EQUALS], value);
    valid_utf8_concat(key + seq![FIX_EQUALS] + value, seq![FIX_DELIMITER]);
}

/// A message whose version and body are well-formed UTF-8 is well-formed
/// UTF-8.
pub proof fn lemma_framed_utf8(version: Seq<u8>, body: Seq<u8>)
    requires
        valid_utf8(version),
        valid_utf8(body),
    ensures
        valid_utf8(summed(version, body)),
        valid_utf8(framed(version, body)),
{
    lemma_ascii_is_utf8(version_tag());
    lemma_ascii_is_utf8(body_len_tag());
    lemma_ascii_is_utf8(check_sum_tag());
    lemma_decimal_ascii(body.len());
    lemma_ascii_is_utf8(decimal(body.len()));
    lemma_ascii_is_utf8(check_sum_digits(summed(version, body)));
    lemma_chunk_utf8(version_tag(), version);
    lemma_chunk_utf8(body_len_tag(), decimal(body.len()));
    lemma_chunk_utf8(check_sum_tag(), check_sum_digits(summed(version, body)));
    valid_utf8_concat(chunk(version_tag(), version), chunk(body_len_tag(), decimal(body.len())));
    valid_utf8_concat(header(version, body.len()), body);
    valid_utf8_concat(
        summed(version, body),
        chunk(check_sum_tag(), check_sum_digits(summed(version, body))),
    );
}

/// The textual form of well-formed UTF-8 is well-formed UTF-8.
pub proof fn lemma_shown_utf8(bytes: Seq<u8>)
    requires
        valid_utf8(bytes),
    ensures
        valid_utf8(shown(bytes)),
    decreases bytes.len(),
{
    lemma_first_index(bytes, FIX_DELIMITER);
    let k = first_index(bytes, FIX_DELIMITER);
    if k < bytes.len() {
        let left = bytes.subrange(0, k);
        let right = bytes.subrange(k + 1, bytes.len() as int);
        lemma_utf8_cut_at_ascii(bytes, k);
        lemma_shown_utf8(right);
        let bar = seq![FIX_TEXT_DELIMITER];
        lemma_ascii_is_utf8(bar);
        valid_utf8_concat(left, bar);
        valid_utf8_concat(left + bar, shown(right));
        assert(shown(bytes) =~= left + bar + shown(right));
    } else {
        assert(shown(bytes) =~= bytes);
    }
}

} // verus!
