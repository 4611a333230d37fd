use swindon::content_type::check_json;
use swindon::content_type::ContentType::{Absent, Invalid, Valid};

#[test]
fn simple() {
    assert_eq!(check_json(&vec![("Content-Type", &b"application/json"[..])]), Valid);
}

#[test]
fn charset() {
    assert_eq!(
        check_json(&vec![("Content-Type", &b"application/json; charset=utf-8"[..]),]),
        Valid
    );
}

#[test]
fn bad_charset() {
    assert_eq!(
        check_json(&vec![("Content-Type", &b"application/json; charset=windows-1251"[..]),]),
        Invalid
    );
}

#[test]
fn duplicate() {
    assert_eq!(
        check_json(&vec![
            ("Content-Type", &b"application/json; charset=utf-8"[..]),
            ("Content-Type", &b"application/json; charset=utf-8"[..]),
        ]),
        Invalid
    );
}

#[test]
fn extra_kwargs() {
    assert_eq!(
        check_json(&vec![("Content-Type", &b"application/json; xx=yy; charset=utf-8"[..]),]),
        Valid
    );
}

#[test]
fn extra_non_utf8() {
    assert_eq!(
        check_json(&vec![("Content-Type", &b"application/json; xx=\x99; charset=utf-8"[..]),]),
        Valid
    );
}

#[test]
fn non_utf8_charset() {
    assert_eq!(
        check_json(&vec![("Content-Type", &b"application/json; charset=\x99"[..]),]),
        Invalid
    );
}

#[test]
fn no_content_type_is_absent() {
    assert_eq!(check_json(&vec![("Content-Length", &b"10"[..])]), Absent);
    assert_eq!(check_json(&vec![]), Absent);
}

#[test]
fn header_name_ignores_case_and_value_is_trimmed() {
    assert_eq!(check_json(&vec![("content-TYPE", &b"  Application/JSON  "[..])]), Valid);
    assert_eq!(check_json(&vec![("Content-Type", &b"application/json; charset= utf8 "[..])]), Valid);
}

#[test]
fn other_media_types_are_invalid() {
    assert_eq!(check_json(&vec![("Content-Type", &b"text/plain"[..])]), Invalid);
    assert_eq!(check_json(&vec![("Content-Type", &b"\xff"[..])]), Invalid);
    // charset is compared exactly
    assert_eq!(check_json(&vec![("Content-Type", &b"application/json; charset=UTF-8"[..])]), Invalid);
    // a charset without a value
    assert_eq!(check_json(&vec![("Content-Type", &b"application/json; charset"[..])]), Invalid);
}

#[test]
fn invalid_first_then_valid_is_invalid() {
    assert_eq!(
        check_json(&vec![
            ("Content-Type", &b"text/html"[..]),
            ("Content-Type", &b"application/json"[..]),
        ]),
        Invalid
    );
}
