use fix_serializer::utils::{
    bytes_to_fix_string, calculate_check_sum, compile_fix_chunk, FIX_DELIMITER,
};

fn build_test_body(data: Vec<&str>) -> Vec<u8> {
    let mut result = vec![];
    for itm in data {
        result.extend_from_slice(itm.as_bytes());
        result.extend_from_slice(&vec![FIX_DELIMITER]);
    }

    return result;
}

#[test]
fn test_compile_fix_chunk() {
    let bytes = b"8=FIX.4.4";

    let key = b"8";
    let value = b"FIX.4.4";

    let result = compile_fix_chunk(key, value);

    assert_eq!(bytes, &result[..9]);
    assert_eq!(&vec![FIX_DELIMITER], &result[9..10]);
}

#[test]
fn test_check_sum_calculation() {
    let check_sum = b"178";

    let test_body = build_test_body(vec![
        "8=FIX.4.4",
        "9=75",
        "35=A",
        "34=1092",
        "49=TESTBUY1",
        "52=20180920-18:24:59.643",
        "56=TESTSELL1",
        "98=0",
        "108=60",
    ]);

    let result = calculate_check_sum(&test_body);
    assert_eq!(check_sum, result.as_bytes());
}

#[test]
fn test_bytes_to_fix_string() {
    let fix_text_string = "8=FIX.4.4|9=75|35=A|";
    let test_fix_message = build_test_body(vec!["8=FIX.4.4", "9=75", "35=A"]);

    let string_message = bytes_to_fix_string(&test_fix_message);

    assert_eq!(string_message.as_str(), fix_text_string);
}
