use fix_serializer::{FixMessageBuilder, FixSerializeError};

#[test]
fn fix_message_builder_test_to_fix_string() {
    let fix_string = "8=FIX.4.4|9=75|35=A|34=1092|49=TESTBUY1|52=20180920-18:24:59.643|56=TESTSELL1|98=0|108=60|10=178|";

    let mut fix_builder = FixMessageBuilder::new("FIX.4.4", "A");
    fix_builder.with_value(34, &"1092".to_string());
    fix_builder.with_value(49, &"TESTBUY1".to_string());
    fix_builder.with_value(52, &"20180920-18:24:59.643".to_string());
    fix_builder.with_value(56, &"TESTSELL1".to_string());
    fix_builder.with_value(98, &"0".to_string());
    fix_builder.with_value(108, &"60".to_string());

    let fix_to_assert: String = fix_builder.to_string();

    assert_eq!(fix_string, &fix_to_assert);
}

#[test]
fn fix_message_builder_test_invalid_fix_no_version() {
    let fix_string =
        b"9=75\x0135=A\x01108=60\x0134=1092\x0149=TESTBUY1\x0152=20180920-18:24:59.643\x0156=TESTSELL1\x0198=0\x0110=178\x01";

    let builder = FixMessageBuilder::from_bytes(fix_string, true);

    assert_eq!(true, builder.is_err());
    assert_eq!(
        FixSerializeError::VersionTagNotFound as i32,
        builder.err().unwrap() as i32
    );
}

#[test]
fn fix_message_builder_test_invalid_fix_no_message_type() {
    let fix_string =
        b"8=FIX.4.4\x019=75\x01108=60\x0134=1092\x0149=TESTBUY1\x0152=20180920-18:24:59.643\x0156=TESTSELL1\x0198=0\x0110=178\x01";
    let builder = FixMessageBuilder::from_bytes(fix_string, true);

    assert_eq!(true, builder.is_err());
    assert_eq!(
        FixSerializeError::MessageTypeTagNotFound as i32,
        builder.err().unwrap() as i32
    );
}

#[test]
fn fix_message_builder_test_no_check_sum_with_validation() {
    let fix_string =
        b"8=FIX.4.4\x019=75\x0135=A\x01108=60\x0134=1092\x0149=TESTBUY1\x0152=20180920-18:24:59.643\x0156=TESTSELL1\x0198=0\x01";
    let builder = FixMessageBuilder::from_bytes(fix_string, true);

    assert_eq!(true, builder.is_err());
    assert_eq!(
        FixSerializeError::CheckSumTagNotFound as i32,
        builder.err().unwrap() as i32
    );
}

#[test]
fn test_no_check_sum_with_disabled_validation() {
    let fix_string =
        b"8=FIX.4.4\x019=75\x0135=A\x01108=60\x0134=1092\x0149=TESTBUY1\x0152=20180920-18:24:59.643\x0156=TESTSELL1\x0198=0\x01";
    let builder = FixMessageBuilder::from_bytes(fix_string, false);

    assert_eq!(false, builder.is_err());
}

#[test]
fn test_invalid_fix_check_sum_with_disabled_validation() {
    let fix_string = b"8=FIX.4.4\x019=75\x0135=A\x01108=60\x0134=1092\x0149=TESTBUY1\x0152=20180920-18:24:59.643\x0156=TESTSELL1\x0198=0\x0110=188\x01";
    let builder = FixMessageBuilder::from_bytes(fix_string, false);

    assert_eq!(false, builder.is_err());
}

#[test]
fn fix_message_builder_test_invalid_fix_check_sum() {
    let fix_string = b"8=FIX.4.4\x019=75\x0135=A\x01108=60\x0134=1092\x0149=TESTBUY1\x0152=20180920-18:24:59.643\x0156=TESTSELL1\x0198=0\x0110=188\x01";
    let builder = FixMessageBuilder::from_bytes(fix_string, true);

    assert_eq!(true, builder.is_err());
    assert_eq!(
        FixSerializeError::InvalidCheckSum as i32,
        builder.err().unwrap() as i32
    );
}

#[test]
fn fix_message_builder_test_to_bytes() {
    let fix_string = b"8=FIX.4.4\x019=75\x0135=A\x0134=1092\x0149=TESTBUY1\x0152=20180920-18:24:59.643\x0156=TESTSELL1\x0198=0\x01108=60\x0110=178\x01";

    let mut fix_builder = FixMessageBuilder::new("FIX.4.4", "A");
    fix_builder.with_value(34, &"1092".to_string());
    fix_builder.with_value(49, &"TESTBUY1".to_string());
    fix_builder.with_value(52, &"20180920-18:24:59.643".to_string());
    fix_builder.with_value(56, &"TESTSELL1".to_string());
    fix_builder.with_value(98, &"0".to_string());
    fix_builder.with_value(108, &"60".to_string());

    let fix_to_assert = fix_builder.as_bytes();

    assert_eq!(fix_string, fix_to_assert.as_slice());
}

#[test]
fn fix_message_builder_test_few_values_with_same_tag() {
    let fix_string = b"8=FIX.4.4\x019=87\x0135=A\x0134=1092\x0149=TESTBUY1\x0149=TESTBUY2\x0152=20180920-18:24:59.643\x0156=TESTSELL1\x0198=0\x01108=60\x0110=194\x01";

    let mut fix_builder = FixMessageBuilder::new("FIX.4.4", "A");
    fix_builder.with_value(34, &"1092".to_string());
    fix_builder.with_value(49, &"TESTBUY1".to_string());
    fix_builder.with_value(49, &"TESTBUY2".to_string());
    fix_builder.with_value(52, &"20180920-18:24:59.643".to_string());
    fix_builder.with_value(56, &"TESTSELL1".to_string());
    fix_builder.with_value(98, &"0".to_string());
    fix_builder.with_value(108, &"60".to_string());
    let fix_to_assert = fix_builder.as_bytes();

    assert_eq!(fix_string, fix_to_assert.as_slice());
}

#[test]
fn fix_message_builder_test_get_few_values_with_same_tag() {
    let fix_string = b"8=FIX.4.4\x019=87\x0135=A\x0134=1092\x0149=TESTBUY1\x0149=TESTBUY2\x0152=20180920-18:24:59.643\x0156=TESTSELL1\x0198=0\x01108=60\x0110=194\x01";

    let mut fix_builder = FixMessageBuilder::new("FIX.4.4", "A");
    fix_builder.with_value(34, &"1092".to_string());
    fix_builder.with_value(49, &"TESTBUY1".to_string());
    fix_builder.with_value(49, &"TESTBUY2".to_string());
    fix_builder.with_value(52, &"20180920-18:24:59.643".to_string());
    fix_builder.with_value(56, &"TESTSELL1".to_string());
    fix_builder.with_value(98, &"0".to_string());
    fix_builder.with_value(108, &"60".to_string());
    let fix_to_assert = fix_builder.as_bytes();

    assert_eq!(fix_string, fix_to_assert.as_slice());
    let tag49 = fix_builder.get_values_string("49");
    assert_eq!(2, tag49.len());
    assert_eq!("TESTBUY1", tag49[0]);
    assert_eq!("TESTBUY2", tag49[1]);
}
