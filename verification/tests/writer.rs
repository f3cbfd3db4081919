use fix_serializer::{FixMessageReader, FixMessageWriter};

#[test]
fn fix_message_writer_test_to_fix_string() {
    let fix_string = "8=FIX.4.4|9=75|35=A|34=1092|49=TESTBUY1|52=20180920-18:24:59.643|56=TESTSELL1|98=0|108=60|10=178|";

    let mut fix_builder = FixMessageWriter::new("FIX.4.4", "A");
    fix_builder.with_value("34", &"1092".to_string());
    fix_builder.with_value("49", &"TESTBUY1".to_string());
    fix_builder.with_value("52", &"20180920-18:24:59.643".to_string());
    fix_builder.with_value("56", &"TESTSELL1".to_string());
    fix_builder.with_value("98", &"0".to_string());
    fix_builder.with_value("108", &"60".to_string());

    let fix_to_assert: String = fix_builder.to_string();

    assert_eq!(fix_string, &fix_to_assert);
}

#[test]
fn fix_message_writer_test_to_bytes() {
    let fix_string = b"8=FIX.4.4\x019=75\x0135=A\x0134=1092\x0149=TESTBUY1\x0152=20180920-18:24:59.643\x0156=TESTSELL1\x0198=0\x01108=60\x0110=178\x01";

    let mut fix_builder = FixMessageWriter::new("FIX.4.4", "A");
    fix_builder.with_value("34", "1092");
    fix_builder.with_value("49", "TESTBUY1");
    fix_builder.with_value("52", "20180920-18:24:59.643");
    fix_builder.with_value("56", "TESTSELL1");
    fix_builder.with_value("98", "0");
    fix_builder.with_value("108", "60");

    let fix_to_assert = fix_builder.compile_message();

    assert_eq!(fix_string, fix_to_assert.as_slice());
}

#[test]
fn fix_message_writer_test_few_values_with_same_tag() {
    let fix_string = b"8=FIX.4.4\x019=87\x0135=A\x0134=1092\x0149=TESTBUY1\x0149=TESTBUY2\x0152=20180920-18:24:59.643\x0156=TESTSELL1\x0198=0\x01108=60\x0110=194\x01";

    let mut fix_builder = FixMessageWriter::new("FIX.4.4", "A");
    fix_builder.with_value("34", "1092");
    fix_builder.with_value("49", "TESTBUY1");
    fix_builder.with_value("49", "TESTBUY2");
    fix_builder.with_value("52", "20180920-18:24:59.643");
    fix_builder.with_value("56", "TESTSELL1");
    fix_builder.with_value("98", "0");
    fix_builder.with_value("108", "60");
    let fix_to_assert = fix_builder.compile_message();

    assert_eq!(fix_string, fix_to_assert.as_slice());
}

#[test]
fn fix_message_writer_test_get_few_values_with_same_tag() {
    let fix_string = b"8=FIX.4.4\x019=87\x0135=A\x0134=1092\x0149=TESTBUY1\x0149=TESTBUY2\x0152=20180920-18:24:59.643\x0156=TESTSELL1\x0198=0\x01108=60\x0110=194\x01";

    let mut fix_builder = FixMessageWriter::new("FIX.4.4", "A");
    fix_builder.with_value("34", "1092");
    fix_builder.with_value("49", "TESTBUY1");
    fix_builder.with_value("49", "TESTBUY2");
    fix_builder.with_value("52", "20180920-18:24:59.643");
    fix_builder.with_value("56", "TESTSELL1");
    fix_builder.with_value("98", "0");
    fix_builder.with_value("108", "60");
    let fix_to_assert = fix_builder.compile_message();

    assert_eq!(fix_string, fix_to_assert.as_slice());

    let fix_reader = FixMessageReader::from_bytes(fix_string);

    let tag49 = fix_reader.get_values("49").unwrap();
    assert_eq!(2, tag49.len());
    assert_eq!("TESTBUY1", tag49[0]);
    assert_eq!("TESTBUY2", tag49[1]);
}
