use fix_serializer::text::is_utf8;
use fix_serializer::utils::{
    calculate_check_sum, convert_fix_message_to_string, split_fix_to_tags, write_body_len,
    write_fix_chunk,
};
use fix_serializer::{
    FixMessageBodyBuilder, FixMessageBuilder, FixMessageItem, FixMessageIterator,
    FixMessageReader, FixMessageWriter, FixSerializeError,
};

const LOGON: &[u8] = b"8=FIX.4.4\x019=75\x0135=A\x0134=1092\x0149=TESTBUY1\x0152=20180920-18:24:59.643\x0156=TESTSELL1\x0198=0\x01108=60\x0110=178\x01";

fn logon_builder() -> FixMessageBuilder {
    let mut builder = FixMessageBuilder::new("FIX.4.4", "A");
    builder.with_value(34, "1092");
    builder.with_value(49, "TESTBUY1");
    builder.with_value(52, "20180920-18:24:59.643");
    builder.with_value(56, "TESTSELL1");
    builder.with_value(98, "0");
    builder.with_value(108, "60");
    builder
}

#[test]
fn round_trip_through_builder_keeps_version_type_and_fields() {
    let written = logon_builder().as_bytes();
    assert_eq!(LOGON, written.as_slice());

    let read = FixMessageBuilder::from_bytes(&written, true).unwrap();
    assert_eq!(b"A".to_vec(), *read.get_message_type());
    assert_eq!("A", read.get_message_type_as_string());
    assert_eq!(Some("1092".to_string()), read.get_value_string("34"));
    assert_eq!(Some("60".to_string()), read.get_value_string("108"));
    assert_eq!(None, read.get_value_string("35"));
    assert_eq!(None, read.get_value_string("8"));
    assert_eq!(None, read.get_value_string("9"));
    assert_eq!(None, read.get_value_string("10"));
    assert_eq!(written, read.as_bytes());
}

#[test]
fn round_trip_through_reader_validates() {
    let written = logon_builder().as_bytes();
    let reader = FixMessageReader::from_bytes(&written).check_payload().unwrap();
    assert_eq!("A", reader.get_message_type().unwrap());
    assert_eq!(Some("TESTSELL1"), reader.get_value("56").unwrap());
    assert_eq!(None, reader.get_value("57").unwrap());
}

#[test]
fn round_trip_keeps_a_second_message_type_field_and_equals_signs() {
    let mut builder = FixMessageBuilder::new("FIX.4.2", "D");
    builder.with_value(35, "X");
    builder.with_value(58, "a=b=c");
    builder.with_value(-7, "");
    let written = builder.as_bytes();

    let read = FixMessageBuilder::from_bytes(&written, true).unwrap();
    assert_eq!("D", read.get_message_type_as_string());
    assert_eq!(vec!["X".to_string()], read.get_values_string("35"));
    assert_eq!(Some("a=b=c".to_string()), read.get_value_string("58"));
    assert_eq!(Some("".to_string()), read.get_value_string("-7"));
    assert_eq!(written, read.as_bytes());
    assert!(FixMessageReader::from_bytes(&written).check_payload().is_ok());
}

#[test]
fn writer_and_builder_write_the_same_bytes() {
    let mut writer = FixMessageWriter::new("FIX.4.4", "A");
    writer.with_value("34", "1092");
    writer.with_value("49", "TESTBUY1");
    writer.with_value("52", "20180920-18:24:59.643");
    writer.with_value("56", "TESTSELL1");
    writer.with_value("98", "0");
    writer.with_value("108", "60");
    assert_eq!(logon_builder().as_bytes(), writer.compile_message());
    assert_eq!(logon_builder().to_string(), writer.to_string());
}

#[test]
fn parse_keeps_wire_order() {
    let payload = b"8=FIX.4.4\x019=75\x0135=A\x01108=60\x0149=ONE\x0134=1092\x0149=TWO\x01";
    let read = FixMessageBuilder::from_bytes(payload, false).unwrap();
    assert_eq!(
        b"8=FIX.4.4\x019=34\x0135=A\x01108=60\x0149=ONE\x0134=1092\x0149=TWO\x0110=198\x01".to_vec(),
        read.as_bytes()
    );
    assert_eq!(vec!["ONE".to_string(), "TWO".to_string()], read.get_values_string("49"));
}

#[test]
fn check_sum_is_the_byte_sum_modulo_256_in_three_digits() {
    assert_eq!("000", calculate_check_sum(&[]));
    assert_eq!("065", calculate_check_sum(b"A"));
    assert_eq!("255", calculate_check_sum(&[255]));
    assert_eq!("001", calculate_check_sum(&[255, 2]));
    assert_eq!("000", calculate_check_sum(&[128, 128]));
    assert_eq!("178", calculate_check_sum(&LOGON[..LOGON.len() - 7]));
}

#[test]
fn body_accumulator_appends_in_order_and_sums_with_header() {
    let mut body = FixMessageBodyBuilder::new();
    assert_eq!(0, body.len());
    body.append("35", "A");
    body.append("34", "1092");
    body.append("49", "TESTBUY1");
    body.append("52", "20180920-18:24:59.643");
    body.append("56", "TESTSELL1");
    body.append("98", "0");
    body.append("108", "60");
    assert_eq!(75, body.len());
    assert_eq!(&LOGON[15..90], body.as_slice());
    assert_eq!("178", body.get_checksum("FIX.4.4"));
    assert_eq!(75, body.len());
}

#[test]
fn repeated_tags_are_kept_in_append_order() {
    let mut builder = FixMessageBuilder::new("FIX.4.4", "A");
    builder.with_value(49, "FIRST");
    builder.with_value(50, "OTHER");
    builder.with_value(49, "SECOND");
    let values = builder.get_values(b"49".to_vec());
    assert_eq!(2, values.len());
    assert_eq!(b"FIRST".to_vec(), *values[0]);
    assert_eq!(b"SECOND".to_vec(), *values[1]);
    assert_eq!(Some(&b"FIRST".to_vec()), builder.get_value(b"49".to_vec()));
    assert_eq!(None, builder.get_value(b"51".to_vec()));
    assert_eq!(
        vec!["FIRST".to_string(), "SECOND".to_string()],
        builder.get_values_as_string(b"49".to_vec())
    );
    assert_eq!(Some("FIRST".to_string()), builder.get_value_as_string(b"49".to_vec()));
    assert_eq!(None, builder.get_value_as_string(b"4".to_vec()));
    assert!(builder.get_values_string("4").is_empty());
}

#[test]
fn missing_version_is_reported_before_anything_else() {
    let nothing = FixMessageBuilder::from_bytes(b"", true);
    assert!(matches!(nothing.err(), Some(FixSerializeError::VersionTagNotFound)));
    let only_payload = FixMessageBuilder::from_bytes(b"49=TESTBUY1\x01", true);
    assert!(matches!(only_payload.err(), Some(FixSerializeError::VersionTagNotFound)));
    let unvalidated = FixMessageBuilder::from_bytes(b"35=A\x0110=000\x01", false);
    assert!(matches!(unvalidated.err(), Some(FixSerializeError::VersionTagNotFound)));
}

#[test]
fn missing_message_type_is_reported_before_the_check_sum() {
    let read = FixMessageBuilder::from_bytes(b"8=FIX.4.4\x0149=X\x01", true);
    assert!(matches!(read.err(), Some(FixSerializeError::MessageTypeTagNotFound)));
}

#[test]
fn tampered_check_sum_is_rejected() {
    let mut tampered = LOGON.to_vec();
    let at = tampered.len() - 2;
    tampered[at] = b'9';
    let read = FixMessageBuilder::from_bytes(&tampered, true);
    assert!(matches!(read.err(), Some(FixSerializeError::InvalidCheckSum)));
    let checked = FixMessageReader::from_bytes(&tampered).check_payload();
    assert!(matches!(checked.err(), Some(FixSerializeError::InvalidCheckSum)));
}

#[test]
fn valid_check_sum_is_accepted_with_validation() {
    assert!(FixMessageBuilder::from_bytes(LOGON, true).is_ok());
    assert!(FixMessageReader::from_bytes(LOGON).check_payload().is_ok());
}

#[test]
fn wrong_check_sum_without_validation_exposes_all_fields() {
    let payload = b"8=FIX.4.4\x019=75\x0135=A\x0134=1092\x0149=TESTBUY1\x0110=999\x01";
    let read = FixMessageBuilder::from_bytes(payload, false).unwrap();
    assert_eq!("A", read.get_message_type_as_string());
    assert_eq!(Some("1092".to_string()), read.get_value_string("34"));
    assert_eq!(Some("TESTBUY1".to_string()), read.get_value_string("49"));
    assert_eq!("8=FIX.4.4|9=25|35=A|34=1092|49=TESTBUY1|10=099|", read.to_string());
}

#[test]
fn reader_reports_missing_tags_in_its_order() {
    let none = FixMessageReader::from_bytes(b"49=X\x01").check_payload();
    assert!(matches!(none.err(), Some(FixSerializeError::BodyLenTagNotFound)));
    let no_body_len = FixMessageReader::from_str("8=FIX.4.4|35=A|10=000|").check_payload();
    assert!(matches!(no_body_len.err(), Some(FixSerializeError::BodyLenTagNotFound)));
    let no_type = FixMessageReader::from_str("9=5|").check_payload();
    assert!(matches!(no_type.err(), Some(FixSerializeError::MessageTypeTagNotFound)));
    let no_check_sum = FixMessageReader::from_str("9=5|35=A|").check_payload();
    assert!(matches!(no_check_sum.err(), Some(FixSerializeError::CheckSumTagNotFound)));
    let no_version = FixMessageReader::from_str("9=5|35=A|10=000|").check_payload();
    assert!(matches!(no_version.err(), Some(FixSerializeError::VersionTagNotFound)));
    assert!(no_version_is_version_error());
}

fn no_version_is_version_error() -> bool {
    let error = FixSerializeError::VersionTagNotFound;
    error.is_version_tag_not_found()
        && !error.is_message_type_tag_not_found()
        && !error.is_check_sum_tag_not_found()
        && !error.is_invalid_check_sum()
}

#[test]
fn reader_does_not_compare_the_body_length() {
    let text = "8=FIX.4.4|9=1|35=A|34=1092|49=TESTBUY1|52=20180920-18:24:59.643|56=TESTSELL1|98=0|108=60|10=178|";
    assert!(FixMessageReader::from_str(text).check_payload().is_ok());
}

#[test]
fn truncated_buffer_fails_with_delimiter_not_found() {
    let text = "8=FIX.4.4|9=75|35=A";
    let checked = FixMessageReader::from_str(text).check_payload();
    assert!(matches!(checked.err(), Some(FixSerializeError::FixDelimiterNotFound)));
    let reader = FixMessageReader::from_str(text);
    assert_eq!(Some("75"), reader.get_value("9").unwrap());
    assert!(matches!(reader.get_value("35"), Err(FixSerializeError::FixDelimiterNotFound)));
    assert!(matches!(reader.get_values("9"), Err(FixSerializeError::FixDelimiterNotFound)));
    assert!(matches!(
        reader.get_message_type(),
        Err(FixSerializeError::FixDelimiterNotFound)
    ));
}

#[test]
fn iterator_ends_after_a_truncated_field() {
    let mut iterator = FixMessageIterator::from_slice(b"8=FIX.4.4\x019=7");
    let first = iterator.next().unwrap().unwrap();
    assert_eq!("8", first.key);
    assert_eq!("FIX.4.4", first.value);
    assert!(matches!(
        iterator.next(),
        Some(Err(FixSerializeError::FixDelimiterNotFound))
    ));
    assert!(iterator.next().is_none());
    assert!(iterator.next().is_none());
}

#[test]
fn iterator_over_nothing_yields_nothing() {
    assert!(FixMessageIterator::from_str("").next().is_none());
    assert!(FixMessageIterator::from_slice(b"").next().is_none());
    assert!(FixMessageReader::from_str("").iter().next().is_none());
}

#[test]
fn iterator_keeps_the_other_delimiter_inside_a_value() {
    let mut text = FixMessageIterator::from_str("58=a\u{1}b|");
    let item = text.next().unwrap().unwrap();
    assert_eq!("a\u{1}b", item.value);
    let mut bytes = FixMessageIterator::from_slice(b"58=a|b\x0159==\x01");
    let item = bytes.next().unwrap().unwrap();
    assert_eq!("58", item.key);
    assert_eq!("a|b", item.value);
    let item = bytes.next().unwrap().unwrap();
    assert_eq!("59", item.key);
    assert_eq!("=", item.value);
    assert!(bytes.next().is_none());
}

#[test]
fn item_divides_at_the_first_equals_sign() {
    let item = FixMessageItem::from_str("58=a=b");
    assert_eq!("58", item.key);
    assert_eq!("a=b", item.value);
    let item = FixMessageItem::from_slice(b"=x\x01");
    assert_eq!("", item.key);
    assert_eq!("x", item.value);
    let item = FixMessageItem::from_str("9=");
    assert_eq!("9", item.key);
    assert_eq!("", item.value);
    let item = FixMessageItem::from_str("9=||");
    assert_eq!("|", item.value);
    let item = FixMessageItem::from_slice(b"9=1|");
    assert_eq!("1|", item.value);
}

#[test]
fn values_keep_text_beyond_ascii() {
    let mut writer = FixMessageWriter::new("FIX.4.4", "A");
    writer.with_value("58", "gr\u{fc}\u{df}e \u{20ac}");
    let written = writer.compile_message();
    let reader = FixMessageReader::from_bytes(&written);
    assert_eq!(Some("gr\u{fc}\u{df}e \u{20ac}"), reader.get_value("58").unwrap());
    assert!(FixMessageReader::from_bytes(&written).check_payload().is_ok());
    let text = writer.to_string();
    let reader = FixMessageReader::from_str(&text);
    assert_eq!(vec!["gr\u{fc}\u{df}e \u{20ac}"], reader.get_values("58").unwrap());
    assert!(FixMessageReader::from_str(&text).check_payload().is_ok());
    assert_eq!(text, reader.to_string());
    assert_eq!(text, FixMessageReader::from_bytes(&written).to_string());
}

#[test]
fn reader_returns_the_first_of_repeated_tags() {
    let reader = FixMessageReader::from_str("49=ONE|35=A|49=TWO|35=B|");
    assert_eq!(Some("ONE"), reader.get_value("49").unwrap());
    assert_eq!(vec!["ONE", "TWO"], reader.get_values("49").unwrap());
    assert_eq!("A", reader.get_message_type().unwrap());
    assert!(reader.get_values("50").unwrap().is_empty());
    let without = FixMessageReader::from_str("49=ONE|");
    assert!(matches!(
        without.get_message_type(),
        Err(FixSerializeError::MessageTypeTagNotFound)
    ));
}

#[test]
fn split_gives_tags_and_values_in_wire_order() {
    let tags = split_fix_to_tags(b"8=FIX.4.4\x0149=A\x01flag\x0149=B=C\x01=\x01\x01tail");
    let expected: Vec<(Vec<u8>, Vec<u8>)> = vec![
        (b"8".to_vec(), b"FIX.4.4".to_vec()),
        (b"49".to_vec(), b"A".to_vec()),
        (b"flag".to_vec(), b"".to_vec()),
        (b"49".to_vec(), b"B=C".to_vec()),
        (b"".to_vec(), b"".to_vec()),
        (b"".to_vec(), b"".to_vec()),
    ];
    assert_eq!(expected, tags);
    assert!(split_fix_to_tags(b"").is_empty());
    assert!(split_fix_to_tags(b"8=FIX.4.4").is_empty());
}

#[test]
fn chunks_and_body_length_are_written_after_what_is_there() {
    let mut out = b"x".to_vec();
    write_fix_chunk(&mut out, "49", "TESTBUY1");
    assert_eq!(b"x49=TESTBUY1\x01".to_vec(), out);
    write_body_len(&mut out, 0);
    write_body_len(&mut out, 7);
    write_body_len(&mut out, 120345);
    assert_eq!(b"x49=TESTBUY1\x019=0\x019=7\x019=120345\x01".to_vec(), out);
}

#[test]
fn builder_writes_negative_and_large_tags_in_decimal() {
    let mut builder = FixMessageBuilder::new("F", "");
    builder.with_value(0, "a");
    builder.with_value(-1, "b");
    builder.with_value(i32::MAX, "c");
    builder.with_value(i32::MIN, "d");
    assert_eq!(
        "8=F|9=40|35=|0=a|-1=b|2147483647=c|-2147483648=d|10=151|",
        builder.to_string()
    );
}

#[test]
fn textual_form_replaces_every_delimiter() {
    assert_eq!("", convert_fix_message_to_string(Vec::new()));
    assert_eq!("||a|", convert_fix_message_to_string(vec![1, 1, b'a', b'|']));
    assert_eq!(
        "8=FIX.4.4|9=5|35=A|10=178|",
        convert_fix_message_to_string(b"8=FIX.4.4\x019=5\x0135=A\x0110=178\x01".to_vec())
    );
}

#[test]
fn well_formed_buffers_have_an_equals_sign_in_every_complete_field() {
    assert!(FixMessageReader::from_bytes(LOGON).is_well_formed());
    assert!(FixMessageReader::from_str("").is_well_formed());
    assert!(FixMessageReader::from_str("8=FIX.4.4|9=5|tail").is_well_formed());
    assert!(FixMessageReader::from_str("=|").is_well_formed());
    assert!(!FixMessageReader::from_str("8=FIX.4.4|flag|9=5|").is_well_formed());
    assert!(!FixMessageReader::from_str("|").is_well_formed());
    assert!(FixMessageReader::from_bytes(b"8=FIX.4.4|9=5|\x01").is_well_formed());
    assert!(!FixMessageReader::from_bytes(b"8=FIX.4.4\x01\x01").is_well_formed());
}

#[test]
fn utf8_test_follows_the_encoding() {
    assert!(is_utf8(b""));
    assert!(is_utf8(LOGON));
    assert!(is_utf8("gr\u{fc}\u{df}e \u{20ac} \u{1f600}".as_bytes()));
    assert!(!is_utf8(&[0x80]));
    assert!(!is_utf8(&[0xc3]));
    assert!(!is_utf8(&[0xc0, 0x80]));
    assert!(!is_utf8(&[0xed, 0xa0, 0x80]));
    assert!(!is_utf8(&[0xf4, 0x90, 0x80, 0x80]));
    assert!(!is_utf8(&[b'a', 0xff, b'b']));
}
