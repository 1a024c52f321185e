use addrsync::mime::{decode_if_encoded, FormatError};

#[test]
fn base64_encoded_field_decodes() {
    assert_eq!(decode_if_encoded("=?UTF-8?B?Y2Fmw6k=?=").unwrap(), "caf\u{e9}");
}

#[test]
fn quoted_printable_encoded_field_decodes() {
    assert_eq!(decode_if_encoded("=?UTF-8?Q?Caf=C3=A9?=").unwrap(), "Caf\u{e9}");
}

#[test]
fn plain_text_passes_through() {
    assert_eq!(decode_if_encoded("plain text").unwrap(), "plain text");
}

#[test]
fn leading_whitespace_is_trimmed_before_the_check() {
    assert_eq!(decode_if_encoded("  plain").unwrap(), "plain");
    assert_eq!(decode_if_encoded(" =?UTF-8?B?Y2Fmw6k=?=").unwrap(), "caf\u{e9}");
}

#[test]
fn quoted_printable_underscores_become_spaces() {
    assert_eq!(decode_if_encoded("=?UTF-8?Q?a_b?=").unwrap(), "a b");
}

#[test]
fn invalid_base64_is_an_error() {
    assert_eq!(
        decode_if_encoded("=?UTF-8?B?!!!?=").unwrap_err(),
        FormatError::BadBase64
    );
}

#[test]
fn base64_of_invalid_utf8_is_an_error() {
    assert_eq!(
        decode_if_encoded("=?UTF-8?B?/w==?=").unwrap_err(),
        FormatError::BadUtf8
    );
}

#[test]
fn quoted_printable_invalid_utf8_is_replaced_not_rejected() {
    assert_eq!(decode_if_encoded("=?UTF-8?Q?=FF?=").unwrap(), "\u{fffd}");
}

#[test]
fn empty_interior_decodes_to_empty() {
    assert_eq!(decode_if_encoded("=?UTF-8?B??=").unwrap(), "");
}
