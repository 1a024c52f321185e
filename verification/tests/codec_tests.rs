use addrsync::codec::{parse_addressbook, serialize_addressbook};
use addrsync::contact::LocalContact;
use addrsync::mime::FormatError;

fn contact(nickname: &str, name: &str, email: &str, fcc: &str, note: &str) -> LocalContact {
    LocalContact {
        nickname: nickname.to_string(),
        display_name: name.to_string(),
        email: email.to_string(),
        fcc: fcc.to_string(),
        note: note.to_string(),
    }
}

#[test]
fn round_trip_two_records() {
    let contacts = vec![
        contact("Doe", "Jane Doe", "jane@x.com", "fcc", "a note"),
        contact("Smith01", "Bob Smith", "bob@y.org", "", "other"),
    ];
    let text = serialize_addressbook(&contacts);
    assert_eq!(
        text,
        "Doe\tJane Doe\tjane@x.com\tfcc\ta note\nSmith01\tBob Smith\tbob@y.org\t\tother\n"
    );
    let parsed = parse_addressbook(&text).unwrap();
    assert_eq!(parsed.len(), 2);
    for (a, b) in contacts.iter().zip(parsed.iter()) {
        assert!(a == b);
    }
}

#[test]
fn tab_terminated_empty_note_parses_to_one_record() {
    let contacts = vec![contact("Doe", "Jane Doe", "jane@x.com", "", "")];
    let text = serialize_addressbook(&contacts);
    assert!(text.ends_with("\t\n"));
    let parsed = parse_addressbook(&text).unwrap();
    assert_eq!(parsed.len(), 1);
    assert_eq!(parsed[0].note, "");
    assert_eq!(parsed[0].email, "jane@x.com");
}

#[test]
fn tab_terminated_record_followed_by_another() {
    let text = "Doe\tJane Doe\tjane@x.com\tfcc\t\nSmith\tBob Smith\tbob@y.org\tf2\tnote2\n";
    let parsed = parse_addressbook(text).unwrap();
    assert_eq!(parsed.len(), 2);
    assert_eq!(parsed[0].note, "");
    assert_eq!(parsed[0].fcc, "fcc");
    assert_eq!(parsed[1].note, "note2");
}

#[test]
fn soft_wrap_line_folds_into_pending_record() {
    let text = "Doe\tJane Doe\tjane@x.com\tfcc\t\n   wrapped note\n";
    let parsed = parse_addressbook(text).unwrap();
    assert_eq!(parsed.len(), 1);
    assert_eq!(parsed[0].note, "wrapped note");
}

#[test]
fn too_many_fields_is_an_error() {
    let text = "a\tb\tc\td\te\tf\n";
    assert_eq!(parse_addressbook(text).unwrap_err(), FormatError::TooManyFields);
}

#[test]
fn missing_trailing_fields_default_to_empty() {
    let text = "Doe\tJane Doe\tjane@x.com\n";
    let parsed = parse_addressbook(text).unwrap();
    assert_eq!(parsed.len(), 1);
    assert_eq!(parsed[0].fcc, "");
    assert_eq!(parsed[0].note, "");
}

#[test]
fn serialize_skips_records_with_empty_email() {
    let contacts = vec![
        contact("Doe", "Jane Doe", "", "fcc", "dropped"),
        contact("Smith", "Bob Smith", "bob@y.org", "", "kept"),
    ];
    let text = serialize_addressbook(&contacts);
    assert_eq!(text, "Smith\tBob Smith\tbob@y.org\t\tkept\n");
}

#[test]
fn empty_input_parses_to_no_records() {
    assert_eq!(parse_addressbook("").unwrap().len(), 0);
}

#[test]
fn last_record_without_newline_is_kept() {
    let text = "Doe\tJane Doe\tjane@x.com\tfcc\tnote";
    let parsed = parse_addressbook(text).unwrap();
    assert_eq!(parsed.len(), 1);
    assert_eq!(parsed[0].note, "note");
}

#[test]
fn crlf_line_endings_read_like_lf() {
    let text = "Doe\tJane Doe\tjane@x.com\tfcc\tnote\r\n";
    let parsed = parse_addressbook(text).unwrap();
    assert_eq!(parsed.len(), 1);
    assert_eq!(parsed[0].note, "note");
}

#[test]
fn encoded_field_is_decoded_during_parse() {
    let text = "Doe\t=?UTF-8?B?Y2Fmw6k=?=\tjane@x.com\t\tn\n";
    let parsed = parse_addressbook(text).unwrap();
    assert_eq!(parsed[0].display_name, "caf\u{e9}");
}

#[test]
fn malformed_encoded_field_fails_the_parse() {
    let text = "Doe\t=?UTF-8?B?!!!?=\tjane@x.com\t\tn\n";
    assert_eq!(parse_addressbook(text).unwrap_err(), FormatError::BadBase64);
}
