use abspath::error::ErrorKind;
use abspath::text::{path_to_str, to_lowercase};

#[test]
fn to_lowercase_of_ascii() {
    assert_eq!(to_lowercase("Hello, World 42 [Z]"), "hello, world 42 [z]");
    assert_eq!(to_lowercase("already lower"), "already lower");
    assert_eq!(to_lowercase(""), "");
}

#[test]
fn to_lowercase_of_other_text() {
    assert_eq!(to_lowercase("\u{c0}\u{c9}B"), "\u{e0}\u{e9}b");
    assert_eq!(to_lowercase("\u{3a3}A"), "\u{3c3}a");
}

#[test]
fn path_to_str_of_valid_text() {
    assert_eq!(path_to_str(b"/home/me").unwrap(), "/home/me");
    assert_eq!(path_to_str("d\u{e9}j\u{e0}".as_bytes()).unwrap(), "d\u{e9}j\u{e0}");
    assert_eq!(path_to_str(b"").unwrap(), "");
}

#[test]
fn path_to_str_of_invalid_text() {
    let err = path_to_str(b"/home/\xff\xfe").unwrap_err();
    assert_eq!(err.kind, ErrorKind::InvalidUnicode);
    assert_eq!(err.path, b"/home/\xff\xfe");
    assert!(path_to_str(b"\xc0\x80").is_err());
    assert!(path_to_str(b"\xed\xa0\x80").is_err());
    assert!(path_to_str(b"\xe2\x82").is_err());
}
