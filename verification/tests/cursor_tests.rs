use rust_graphql_kata_001_web::cursor::{decode_cursor, encode_cursor};

#[test]
fn cursor_of_position_decodes_back() {
    for id in [0usize, 1, 9, 10, 42, 4294967295, usize::MAX] {
        let cursor = encode_cursor(id);
        assert_eq!(decode_cursor(&cursor), Some(id));
    }
}

#[test]
fn cursor_is_base64_of_decimal_text() {
    assert_eq!(encode_cursor(0), "MA==");
    assert_eq!(encode_cursor(10), "MTA=");
    assert_eq!(encode_cursor(42), "NDI=");
    assert_eq!(encode_cursor(123), "MTIz");
}

#[test]
fn cursor_that_is_not_base64_is_unreadable() {
    assert_eq!(decode_cursor("!!!"), None);
    assert_eq!(decode_cursor("M"), None);
    assert_eq!(decode_cursor("MA=A"), None);
}

#[test]
fn cursor_whose_text_is_not_a_number_is_unreadable() {
    // "abc"
    assert_eq!(decode_cursor("YWJj"), None);
    // "" decodes to no bytes, which is no number
    assert_eq!(decode_cursor(""), None);
    // "-1"
    assert_eq!(decode_cursor("LTE="), None);
    // "18446744073709551616" does not fit in a usize
    assert_eq!(decode_cursor("MTg0NDY3NDQwNzM3MDk1NTE2MTY="), None);
}

#[test]
fn cursor_text_may_carry_a_plus_sign() {
    // "+5"
    assert_eq!(decode_cursor("KzU="), Some(5));
    // "+"
    assert_eq!(decode_cursor("Kw=="), None);
}

#[test]
fn cursors_are_standard_padded_base64() {
    assert_eq!(encode_cursor(1), "MQ==");
    assert_eq!(encode_cursor(12), "MTI=");
    assert_eq!(encode_cursor(123), "MTIz");
    assert_eq!(encode_cursor(1234), "MTIzNA==");
}
