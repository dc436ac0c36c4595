use skyd::blueql::LangError;

#[test]
fn std_errors_convert_to_language_errors() {
    let bad: Vec<u8> = vec![0xC3, 0x28];
    assert_eq!(LangError::from(std::str::from_utf8(&bad).unwrap_err()), LangError::NonUnicodeChar);
    assert_eq!(LangError::from(String::from_utf8(bad).unwrap_err()), LangError::NonUnicodeChar);
    assert_eq!(LangError::from("x1".parse::<u64>().unwrap_err()), LangError::TypeParseFailure);
}
