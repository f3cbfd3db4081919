//! What holds of the library as a whole: what reading makes of a message
//! that was written, and how lookups treat repeated tags.

use vstd::prelude::*;
use crate::errors::FixSerializeError;
use crate::fix_message_builder::{parse_defect, parsed_fields};
use crate::fix_message_reader::defect;
use crate::utils::{FIX_DELIMITER, FIX_EQUALS, FIX_TEXT_DELIMITER};
use crate::wire::{
    are_payload, first_index, is_tag, is_value, lemma_first_index, shown, after_first_field, all_items, body, body_len_tag, check_sum_digits, check_sum_tag, chunk,
    chunks, decimal, digit, fields, first_field, first_value, has_tag, is_framing, is_item,
    item_key, item_value, items, lemma_fields_step, lemma_first_index_is, lemma_items_step,
    lemma_position_is, lemma_tags_differ, message, message_type_tag, payload, position,
    signed_decimal, summed, truncated, values_of, version_tag,
};

verus! {

/// The fields of a message as they stand on the wire, with `check_sum` in
/// the checksum field: version, body length, message type, the payload
/// fields, checksum.
pub open spec fn wire_fields(
    version: Seq<u8>,
    message_type: Seq<u8>,
    fields: Seq<(Seq<u8>, Seq<u8>)>,
    check_sum: Seq<u8>,
) -> Seq<(Seq<u8>, Seq<u8>)> {
    seq![
        (version_tag(), version),
        (body_len_tag(), decimal(body(message_type, fields).len())),
        (message_type_tag(), message_type),
    ] + fields + seq![(check_sum_tag(), check_sum)]
}

/// Decimal digits are neither `=` nor the delimiter.
pub proof fn lemma_decimal_is_tag(n: nat)
    ensures
        is_tag(decimal(n)),
    decreases n,
{
    if n >= 10 {
        lemma_decimal_is_tag(n / 10);
    }
    assert forall|i: int| 0 <= i < decimal(n).len() implies decimal(n)[i] != FIX_EQUALS
        && decimal(n)[i] != FIX_DELIMITER by {
        if n >= 10 && i < decimal(n / 10).len() {
            assert(decimal(n)[i] == decimal(n / 10)[i]);
            assert(decimal(n / 10).contains(decimal(n / 10)[i]));
        }
    }
}

/// A decimal number has one digit below 10, two digits below 100, and more
/// from there on.
pub proof fn lemma_decimal_len(n: nat)
    ensures
        n < 10 ==> decimal(n) == seq![digit(n as int)],
        10 <= n < 100 ==> decimal(n) == seq![digit((n / 10) as int), digit((n % 10) as int)],
        n >= 100 ==> decimal(n).len() >= 3,
    decreases n,
{
    if n >= 10 {
        lemma_decimal_len(n / 10);
        if n < 100 {
            assert(decimal(n) =~= seq![digit((n / 10) as int), digit((n % 10) as int)]);
        }
    }
}

/// The decimal form of an integer can stand as a tag, and it is a framing
/// tag only for 8, 9 and 10.
pub proof fn lemma_decimal_tag(key: int)
    ensures
        is_tag(signed_decimal(key)),
        is_framing(signed_decimal(key)) <==> key == 8 || key == 9 || key == 10,
{
    let n = (if key < 0 {
        -key
    } else {
        key
    }) as nat;
    lemma_decimal_is_tag(n);
    lemma_decimal_len(n);
    let text = signed_decimal(key);
    if key < 0 {
        assert forall|i: int| 0 <= i < text.len() implies text[i] != FIX_EQUALS && text[i]
            != FIX_DELIMITER by {
            if i > 0 {
                assert(decimal(n).contains(decimal(n)[i - 1]));
            }
        }
        assert(text[0] == 0x2d);
        assert(version_tag()[0] == 0x38 && body_len_tag()[0] == 0x39 && check_sum_tag()[0]
            == 0x31);
    } else if n < 10 {
        assert(text[0] == digit(n as int));
        assert(version_tag()[0] == 0x38 && body_len_tag()[0] == 0x39);
        assert(text.len() != check_sum_tag().len());
        if key == 8 {
            assert(text =~= version_tag());
        }
        if key == 9 {
            assert(text =~= body_len_tag());
        }
    } else if n < 100 {
        assert(text[0] == digit((n / 10) as int) && text[1] == digit((n % 10) as int));
        assert(check_sum_tag()[0] == 0x31 && check_sum_tag()[1] == 0x30);
        assert(text.len() != version_tag().len());
        if key == 10 {
            assert(text =~= check_sum_tag());
        }
    } else {
        assert(text.len() >= 3);
    }
}

/// A field that is written and read again is the same tag and value, and
/// what follows it on the wire is read as if it stood alone.
pub proof fn lemma_items_after_chunk(key: Seq<u8>, value: Seq<u8>, rest: Seq<u8>)
    requires
        is_tag(key),
        is_value(value),
    ensures
        items(chunk(key, value) + rest, FIX_DELIMITER) == seq![(key, value)] + items(
            rest,
            FIX_DELIMITER,
        ),
        truncated(chunk(key, value) + rest, FIX_DELIMITER) == truncated(rest, FIX_DELIMITER),
        all_items(chunk(key, value) + rest, FIX_DELIMITER) == all_items(rest, FIX_DELIMITER),
{
    let data = chunk(key, value) + rest;
    let field = key + seq![FIX_EQUALS] + value;
    let at = field.len() as int;
    assert forall|i: int| 0 <= i < at implies data[i] != FIX_DELIMITER by {
        if i < key.len() {
            assert(key.contains(key[i]));
        } else if i > key.len() {
            assert(value.contains(value[i - key.len() - 1]));
        }
    }
    assert(data[at] == FIX_DELIMITER);
    lemma_first_index_is(data, FIX_DELIMITER, at);
    assert(data.contains(FIX_DELIMITER));
    assert(first_field(data, FIX_DELIMITER) =~= field);
    assert(after_first_field(data, FIX_DELIMITER) =~= rest);
    assert forall|i: int| 0 <= i < key.len() implies field[i] != FIX_EQUALS by {
        assert(key.contains(key[i]));
    }
    lemma_first_index_is(field, FIX_EQUALS, key.len() as int);
    assert(item_key(field) =~= key);
    assert(item_value(field) =~= value);
    lemma_items_step(data, FIX_DELIMITER);
    lemma_fields_step(data, FIX_DELIMITER);
    let head = fields(data, FIX_DELIMITER);
    let tail = fields(rest, FIX_DELIMITER);
    assert(head =~= seq![field] + tail);
    assert(field[key.len() as int] == FIX_EQUALS);
    assert(is_item(field));
    if all_items(rest, FIX_DELIMITER) {
        assert forall|i: int| 0 <= i < head.len() implies is_item(#[trigger] head[i]) by {
            if i > 0 {
                assert(head[i] == tail[i - 1]);
            }
        }
    }
    if all_items(data, FIX_DELIMITER) {
        assert forall|i: int| 0 <= i < tail.len() implies is_item(#[trigger] tail[i]) by {
            assert(tail[i] == head[i + 1]);
        }
    }
}

/// Payload fields that are written and read again are the same fields in
/// the same order.
pub proof fn lemma_items_after_chunks(fields: Seq<(Seq<u8>, Seq<u8>)>, rest: Seq<u8>)
    requires
        forall|i: int|
            0 <= i < fields.len() ==> is_tag((#[trigger] fields[i]).0) && is_value(fields[i].1),
    ensures
        items(chunks(fields) + rest, FIX_DELIMITER) == fields + items(rest, FIX_DELIMITER),
        truncated(chunks(fields) + rest, FIX_DELIMITER) == truncated(rest, FIX_DELIMITER),
        all_items(chunks(fields) + rest, FIX_DELIMITER) == all_items(rest, FIX_DELIMITER),
    decreases fields.len(),
{
    if fields.len() == 0 {
        assert(chunks(fields) + rest =~= rest);
        assert(fields + items(rest, FIX_DELIMITER) =~= items(rest, FIX_DELIMITER));
    } else {
        let last = fields.last();
        let longer = chunk(last.0, last.1) + rest;
        assert(chunks(fields) + rest =~= chunks(fields.drop_last()) + longer);
        lemma_items_after_chunks(fields.drop_last(), longer);
        lemma_items_after_chunk(last.0, last.1, rest);
        assert(fields.drop_last() + (seq![last] + items(rest, FIX_DELIMITER)) =~= fields + items(
            rest,
            FIX_DELIMITER,
        ));
    }
}

/// A message that is written is read as the fields that went into it, and
/// it does not end inside a field. This holds whatever value stands in the
/// checksum field.
pub proof fn lemma_items_of_message(
    version: Seq<u8>,
    message_type: Seq<u8>,
    fields: Seq<(Seq<u8>, Seq<u8>)>,
    check_sum: Seq<u8>,
)
    requires
        is_value(version),
        is_value(message_type),
        forall|i: int|
            0 <= i < fields.len() ==> is_tag((#[trigger] fields[i]).0) && is_value(fields[i].1),
        is_value(check_sum),
    ensures
        items(
            summed(version, body(message_type, fields)) + chunk(check_sum_tag(), check_sum),
            FIX_DELIMITER,
        ) == wire_fields(version, message_type, fields, check_sum),
        !truncated(
            summed(version, body(message_type, fields)) + chunk(check_sum_tag(), check_sum),
            FIX_DELIMITER,
        ),
        all_items(
            summed(version, body(message_type, fields)) + chunk(check_sum_tag(), check_sum),
            FIX_DELIMITER,
        ),
{
    let d = FIX_DELIMITER;
    let length = decimal(body(message_type, fields).len());
    let end = chunk(check_sum_tag(), check_sum);
    let empty = Seq::<u8>::empty();
    let from_fields = chunks(fields) + end;
    let from_type = chunk(message_type_tag(), message_type) + from_fields;
    let from_length = chunk(body_len_tag(), length) + from_type;
    let all = chunk(version_tag(), version) + from_length;
    assert(all =~= summed(version, body(message_type, fields)) + end);
    lemma_tags_are_tags();
    lemma_decimal_is_tag(body(message_type, fields).len());
    lemma_items_after_chunk(check_sum_tag(), check_sum, empty);
    assert(end + empty =~= end);
    lemma_items_step(empty, d);
    lemma_items_after_chunks(fields, end);
    lemma_items_after_chunk(message_type_tag(), message_type, from_fields);
    lemma_items_after_chunk(body_len_tag(), length, from_type);
    lemma_items_after_chunk(version_tag(), version, from_length);
    assert(items(all, d) =~= wire_fields(version, message_type, fields, check_sum));
}

/// The four tags hold neither `=` nor the delimiter.
pub proof fn lemma_tags_are_tags()
    ensures
        is_tag(version_tag()),
        is_tag(body_len_tag()),
        is_tag(check_sum_tag()),
        is_tag(message_type_tag()),
{
}

/// The payload of two lists of fields, one after the other, is the payload
/// of the first followed by that of the second; so with the values of a
/// tag, and with the bytes of the fields.
pub proof fn lemma_concat(
    a: Seq<(Seq<u8>, Seq<u8>)>,
    b: Seq<(Seq<u8>, Seq<u8>)>,
    key: Seq<u8>,
)
    ensures
        payload(a + b) == payload(a) + payload(b),
        values_of(a + b, key) == values_of(a, key) + values_of(b, key),
        chunks(a + b) == chunks(a) + chunks(b),
    decreases b.len(),
{
    if b.len() == 0 {
        assert(a + b =~= a);
        assert(payload(a) + payload(b) =~= payload(a));
        assert(values_of(a, key) + values_of(b, key) =~= values_of(a, key));
        assert(chunks(a) + chunks(b) =~= chunks(a));
    } else {
        assert((a + b).drop_last() =~= a + b.drop_last());
        assert((a + b).last() == b.last());
        lemma_concat(a, b.drop_last(), key);
        assert(payload(a + b) =~= payload(a) + payload(b));
        assert(values_of(a + b, key) =~= values_of(a, key) + values_of(b, key));
        assert(chunks(a + b) =~= chunks(a) + chunks(b));
    }
}

/// Payload fields are their own payload, and none of them has a framing
/// tag.
pub proof fn lemma_payload_of_payload(fields: Seq<(Seq<u8>, Seq<u8>)>, key: Seq<u8>)
    requires
        are_payload(fields),
        is_framing(key),
    ensures
        payload(fields) == fields,
        values_of(fields, key) == Seq::<Seq<u8>>::empty(),
        !has_tag(fields, key),
    decreases fields.len(),
{
    crate::wire::lemma_position(fields, key);
    if fields.len() > 0 {
        lemma_payload_of_payload(fields.drop_last(), key);
        assert(payload(fields) =~= fields);
        assert(fields.last().0 != key);
    } else {
        assert(payload(fields) =~= fields);
    }
    if has_tag(fields, key) {
        assert(is_framing(fields[position(fields, key)].0));
    }
}

/// Where the framing fields of a written message stand, and what its
/// payload is.
pub proof fn lemma_wire_fields(
    version: Seq<u8>,
    message_type: Seq<u8>,
    fields: Seq<(Seq<u8>, Seq<u8>)>,
    check_sum: Seq<u8>,
)
    requires
        are_payload(fields),
    ensures
        ({
            let all = wire_fields(version, message_type, fields, check_sum);
            &&& position(all, version_tag()) == 0
            &&& position(all, body_len_tag()) == 1
            &&& position(all, message_type_tag()) == 2
            &&& position(all, check_sum_tag()) == 3 + fields.len()
            &&& all.len() == 4 + fields.len()
            &&& values_of(all, version_tag()) == seq![version]
            &&& values_of(all, check_sum_tag()) == seq![check_sum]
            &&& payload(all) == seq![(message_type_tag(), message_type)] + fields
            &&& parsed_fields(all) == fields
            &&& chunks(payload(all)) == body(message_type, fields)
        }),
{
    let all = wire_fields(version, message_type, fields, check_sum);
    let length = decimal(body(message_type, fields).len());
    let a = seq![(version_tag(), version)];
    let b = seq![(body_len_tag(), length)];
    let c = seq![(message_type_tag(), message_type)];
    let e = seq![(check_sum_tag(), check_sum)];
    let none = Seq::<(Seq<u8>, Seq<u8>)>::empty();
    lemma_tags_differ();
    assert(all =~= a + b + c + fields + e);
    lemma_position_is(all, version_tag(), 0);
    lemma_position_is(all, body_len_tag(), 1);
    lemma_position_is(all, message_type_tag(), 2);
    assert forall|i: int| 0 <= i < 3 + fields.len() implies all[i].0 != check_sum_tag() by {
        if i >= 3 {
            assert(all[i] == fields[i - 3]);
        }
    }
    lemma_position_is(all, check_sum_tag(), 3 + fields.len() as int);
    // each single field, as payload and as the values of the two tags
    assert(a.drop_last() =~= none && b.drop_last() =~= none && c.drop_last() =~= none
        && e.drop_last() =~= none);
    assert(payload(none) =~= none);
    assert(values_of(none, version_tag()) =~= Seq::<Seq<u8>>::empty());
    assert(values_of(none, check_sum_tag()) =~= Seq::<Seq<u8>>::empty());
    assert(payload(a) =~= none && payload(b) =~= none && payload(e) =~= none);
    assert(payload(c) =~= c);
    assert(values_of(a, version_tag()) =~= seq![version]);
    assert(values_of(b, version_tag()) =~= Seq::<Seq<u8>>::empty());
    assert(values_of(c, version_tag()) =~= Seq::<Seq<u8>>::empty());
    assert(values_of(e, version_tag()) =~= Seq::<Seq<u8>>::empty());
    assert(values_of(a, check_sum_tag()) =~= Seq::<Seq<u8>>::empty());
    assert(values_of(b, check_sum_tag()) =~= Seq::<Seq<u8>>::empty());
    assert(values_of(c, check_sum_tag()) =~= Seq::<Seq<u8>>::empty());
    assert(values_of(e, check_sum_tag()) =~= seq![check_sum]);
    lemma_payload_of_payload(fields, version_tag());
    lemma_payload_of_payload(fields, check_sum_tag());
    lemma_concat(a, b, version_tag());
    lemma_concat(a + b, c, version_tag());
    lemma_concat(a + b + c, fields, version_tag());
    lemma_concat(a + b + c + fields, e, version_tag());
    lemma_concat(a, b, check_sum_tag());
    lemma_concat(a + b, c, check_sum_tag());
    lemma_concat(a + b + c, fields, check_sum_tag());
    lemma_concat(a + b + c + fields, e, check_sum_tag());
    assert(values_of(all, version_tag()) =~= seq![version]);
    assert(values_of(all, check_sum_tag()) =~= seq![check_sum]);
    assert(payload(all) =~= c + fields);
    // without the message-type field
    let others = a + b + fields + e;
    assert(all.remove(2) =~= others);
    lemma_concat(a + b, fields, version_tag());
    lemma_concat(a + b + fields, e, version_tag());
    assert(payload(others) =~= fields);
    // the bytes of the payload
    lemma_concat(c, fields, version_tag());
    assert(chunks(c) =~= chunk(message_type_tag(), message_type)) by {
        assert(chunks(none) =~= Seq::<u8>::empty());
    }
}

/// The three checksum digits are a value.
pub proof fn lemma_check_sum_is_value(bytes: Seq<u8>)
    ensures
        is_value(check_sum_digits(bytes)),
        check_sum_digits(bytes).len() == 3,
{
}

/// Round trip. A message that was written from a version, a message type
/// and payload fields is read back, with the checksum validated, as the
/// same version, type and fields in the same order; and the validation pass
/// of a reader over it finds nothing wrong. The payload fields may repeat a
/// tag, the message type too, but none of them has a framing tag: such a
/// field would be taken for framing when the message is read.
pub proof fn lemma_round_trip(
    version: Seq<u8>,
    message_type: Seq<u8>,
    fields: Seq<(Seq<u8>, Seq<u8>)>,
)
    requires
        is_value(version),
        is_value(message_type),
        are_payload(fields),
    ensures
        ({
            let wire = message(version, message_type, fields);
            let read = items(wire, FIX_DELIMITER);
            &&& parse_defect(read, true) is None
            &&& first_value(read, version_tag()) == version
            &&& first_value(read, message_type_tag()) == message_type
            &&& parsed_fields(read) == fields
            &&& all_items(wire, FIX_DELIMITER)
            &&& defect(read, truncated(wire, FIX_DELIMITER)) is None
        }),
{
    let check_sum = check_sum_digits(summed(version, body(message_type, fields)));
    lemma_check_sum_is_value(summed(version, body(message_type, fields)));
    lemma_items_of_message(version, message_type, fields, check_sum);
    lemma_wire_fields(version, message_type, fields, check_sum);
}

/// A tampered checksum is rejected. Where the checksum field of a written
/// message holds anything but the checksum, reading it with validation
/// fails with `InvalidCheckSum`, and so does the validation pass of a
/// reader.
pub proof fn lemma_tampered_check_sum(
    version: Seq<u8>,
    message_type: Seq<u8>,
    fields: Seq<(Seq<u8>, Seq<u8>)>,
    check_sum: Seq<u8>,
)
    requires
        is_value(version),
        is_value(message_type),
        are_payload(fields),
        is_value(check_sum),
        check_sum != check_sum_digits(summed(version, body(message_type, fields))),
    ensures
        ({
            let wire = summed(version, body(message_type, fields)) + chunk(
                check_sum_tag(),
                check_sum,
            );
            let read = items(wire, FIX_DELIMITER);
            &&& parse_defect(read, true) == Some(FixSerializeError::InvalidCheckSum)
            &&& defect(read, truncated(wire, FIX_DELIMITER)) == Some(
                FixSerializeError::InvalidCheckSum,
            )
        }),
{
    lemma_items_of_message(version, message_type, fields, check_sum);
    lemma_wire_fields(version, message_type, fields, check_sum);
}

/// Without validation the checksum is not looked at. Whatever stands in
/// the checksum field of a written message, reading it without validation
/// succeeds and gives the version, the type and the fields unchanged.
pub proof fn lemma_unvalidated_read(
    version: Seq<u8>,
    message_type: Seq<u8>,
    fields: Seq<(Seq<u8>, Seq<u8>)>,
    check_sum: Seq<u8>,
)
    requires
        is_value(version),
        is_value(message_type),
        are_payload(fields),
        is_value(check_sum),
    ensures
        ({
            let wire = summed(version, body(message_type, fields)) + chunk(
                check_sum_tag(),
                check_sum,
            );
            let read = items(wire, FIX_DELIMITER);
            &&& parse_defect(read, false) is None
            &&& first_value(read, version_tag()) == version
            &&& first_value(read, message_type_tag()) == message_type
            &&& parsed_fields(read) == fields
        }),
{
    lemma_items_of_message(version, message_type, fields, check_sum);
    lemma_wire_fields(version, message_type, fields, check_sum);
}

/// A missing version is found first. Fields without tag 8 are refused with
/// `VersionTagNotFound`, whatever else is missing or wrong.
pub proof fn lemma_missing_version_first(
    fields: Seq<(Seq<u8>, Seq<u8>)>,
    check_sum_validation: bool,
)
    requires
        !has_tag(fields, version_tag()),
    ensures
        parse_defect(fields, check_sum_validation) == Some(FixSerializeError::VersionTagNotFound),
{
}

/// Repeated tags are kept. Two fields with the same tag, added one after
/// the other, are the last two values of that tag, in the order in which
/// they were added.
pub proof fn lemma_repeated_tag(
    fields: Seq<(Seq<u8>, Seq<u8>)>,
    key: Seq<u8>,
    first: Seq<u8>,
    second: Seq<u8>,
)
    ensures
        values_of(fields.push((key, first)).push((key, second)), key) == values_of(fields, key)
            .push(first).push(second),
{
    let one = fields.push((key, first));
    let two = one.push((key, second));
    assert(one.drop_last() =~= fields);
    assert(values_of(one, key) == values_of(fields, key).push(first));
    assert(two.drop_last() =~= one);
}

/// A message and its textual form read alike. Where the bytes hold no `|`,
/// the text that has `|` in place of each delimiter divides into the same
/// fields, and it ends inside a field exactly if the bytes do.
pub proof fn lemma_text_reads_alike(data: Seq<u8>)
    requires
        !data.contains(FIX_TEXT_DELIMITER),
    ensures
        fields(shown(data), FIX_TEXT_DELIMITER) == fields(data, FIX_DELIMITER),
        items(shown(data), FIX_TEXT_DELIMITER) == items(data, FIX_DELIMITER),
        truncated(shown(data), FIX_TEXT_DELIMITER) == truncated(data, FIX_DELIMITER),
        all_items(shown(data), FIX_TEXT_DELIMITER) == all_items(data, FIX_DELIMITER),
    decreases data.len(),
{
    let text = shown(data);
    lemma_first_index(data, FIX_DELIMITER);
    let k = first_index(data, FIX_DELIMITER);
    assert forall|i: int| 0 <= i < data.len() implies data[i] != FIX_TEXT_DELIMITER by {
        assert(data.contains(data[i]));
    }
    lemma_first_index_is(text, FIX_TEXT_DELIMITER, k);
    lemma_first_index(text, FIX_TEXT_DELIMITER);
    lemma_fields_step(data, FIX_DELIMITER);
    lemma_fields_step(text, FIX_TEXT_DELIMITER);
    if k < data.len() {
        let rest = after_first_field(data, FIX_DELIMITER);
        assert forall|i: int| 0 <= i < rest.len() implies rest[i] != FIX_TEXT_DELIMITER by {
            assert(rest[i] == data[k + 1 + i]);
        }
        lemma_text_reads_alike(rest);
        assert(first_field(text, FIX_TEXT_DELIMITER) =~= first_field(data, FIX_DELIMITER));
        assert(after_first_field(text, FIX_TEXT_DELIMITER) =~= shown(rest));
    }
}

/// The checksum of no bytes at all is `000`.
pub proof fn lemma_check_sum_of_nothing()
    ensures
        check_sum_digits(Seq::<u8>::empty()) == seq![0x30u8, 0x30u8, 0x30u8],
{
    assert(check_sum_digits(Seq::<u8>::empty()) =~= seq![0x30u8, 0x30u8, 0x30u8]);
}

/// A body grows by one field on the wire for each field that is added, so
/// writing field by field gives the bytes of the message that holds the
/// same fields.
pub proof fn lemma_body_grows(
    message_type: Seq<u8>,
    fields: Seq<(Seq<u8>, Seq<u8>)>,
    key: Seq<u8>,
    value: Seq<u8>,
)
    ensures
        body(message_type, Seq::empty()) == chunk(message_type_tag(), message_type),
        body(message_type, fields.push((key, value))) == body(message_type, fields) + chunk(
            key,
            value,
        ),
{
    assert(body(message_type, Seq::empty()) =~= chunk(message_type_tag(), message_type));
    assert(fields.push((key, value)).drop_last() =~= fields);
    assert(body(message_type, fields.push((key, value))) =~= body(message_type, fields) + chunk(
        key,
        value,
    ));
}

} // verus!
