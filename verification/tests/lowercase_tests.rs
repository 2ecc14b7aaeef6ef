use opus_tags::LowercaseString;

#[test]
fn dont_allocate_already_lowercase_str() {
    let lower = LowercaseString::from_str("adsf-adsf");
    assert_eq!(lower.as_str(), "adsf-adsf");
}

#[test]
fn from_str_lowers_capitals() {
    let lower = LowercaseString::from_str("MiXeD_Case-09");
    assert_eq!(lower.as_str(), "mixed_case-09");
}

#[test]
fn from_string_lowers_in_place() {
    let lower = LowercaseString::from_string(String::from("TITLE"));
    assert_eq!(lower.as_str(), "title");
}

#[test]
fn try_from_str_accepts_only_lowercase() {
    assert!(LowercaseString::try_from_str("TITLE").is_none());
    assert!(LowercaseString::try_from_str("tItle").is_none());
    let ok = LowercaseString::try_from_str("title-9_x").unwrap();
    assert_eq!(ok.as_str(), "title-9_x");
    let empty = LowercaseString::try_from_str("").unwrap();
    assert_eq!(empty.as_str(), "");
}

#[test]
fn non_ascii_characters_are_untouched() {
    let lower = LowercaseString::from_str("T\u{d6}ne");
    assert_eq!(lower.as_str(), "t\u{d6}ne");
}
