use fix_serializer::FixMessageItem;

#[test]
fn test_parsing_from_bytes_with_ending() {
    let mut src = "9=123".as_bytes().to_vec();
    src.push(1);

    let item = FixMessageItem::from_slice(src.as_slice());

    assert_eq!(item.key, "9");
    assert_eq!(item.value, "123");
}

#[test]
fn test_parsing_from_bytes_with_no_ending() {
    let src = "9=123".as_bytes().to_vec();

    let item = FixMessageItem::from_slice(src.as_slice());

    assert_eq!(item.key, "9");
    assert_eq!(item.value, "123");
}

#[test]
fn test_parsing_from_str_with_ending() {
    let mut src = "9=123".to_string();
    src.push('|');

    let item = FixMessageItem::from_str(src.as_str());

    assert_eq!(item.key, "9");
    assert_eq!(item.value, "123");
}

#[test]
fn test_parsing_from_str_with_no_ending() {
    let src = "9=123";

    let item = FixMessageItem::from_str(src);

    assert_eq!(item.key, "9");
    assert_eq!(item.value, "123");
}
