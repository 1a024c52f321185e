use addrsync::locale::{is_valid_locale_format, locale_from_lang};

#[test]
fn common_locale_shapes_are_valid() {
    assert!(is_valid_locale_format("en-US"));
    assert!(is_valid_locale_format("ja-JP"));
    assert!(is_valid_locale_format("a1-b2"));
}

#[test]
fn wrong_shapes_are_invalid() {
    assert!(!is_valid_locale_format("en_US"));
    assert!(!is_valid_locale_format("en"));
    assert!(!is_valid_locale_format("en-US-x"));
    assert!(!is_valid_locale_format("a!-b"));
}

#[test]
fn lang_value_is_normalized_to_a_locale() {
    assert_eq!(locale_from_lang(Some("ja_JP.UTF-8")), "ja-JP");
    assert_eq!(locale_from_lang(Some("fr_FR")), "fr-FR");
    assert_eq!(locale_from_lang(Some("de-DE")), "de-DE");
}

#[test]
fn missing_or_posix_lang_falls_back_to_the_default() {
    assert_eq!(locale_from_lang(None), "en-US");
    assert_eq!(locale_from_lang(Some("C")), "en-US");
    assert_eq!(locale_from_lang(Some("")), "en-US");
}

#[test]
fn unrecognized_lang_falls_back_to_the_default() {
    assert_eq!(locale_from_lang(Some("weird")), "en-US");
    assert_eq!(locale_from_lang(Some("what_is_this")), "en-US");
}
