use rust_graphql_kata_001_web::decimal::{parse_i64_text, parse_usize_bytes, render_usize};

#[test]
fn renders_decimal_text() {
    assert_eq!(render_usize(0), "0");
    assert_eq!(render_usize(7), "7");
    assert_eq!(render_usize(10), "10");
    assert_eq!(render_usize(5432), "5432");
    assert_eq!(render_usize(usize::MAX), usize::MAX.to_string());
}

#[test]
fn reads_usize_as_parse_does() {
    let cases: [&str; 10] = ["0", "42", "+42", "007", "", "+", "-1", " 1", "1a", "18446744073709551615"];
    for case in cases {
        assert_eq!(parse_usize_bytes(case.as_bytes()), case.parse::<usize>().ok(), "{:?}", case);
    }
    assert_eq!(parse_usize_bytes(b"18446744073709551616"), None);
    assert_eq!(parse_usize_bytes(&[0xff, b'1']), None);
}

#[test]
fn reads_i64_as_parse_does() {
    let cases: [&str; 14] = [
        "0",
        "-0",
        "5432",
        "+5432",
        "-5432",
        "",
        "-",
        "+",
        "--1",
        "12x",
        "9223372036854775807",
        "9223372036854775808",
        "-9223372036854775808",
        "-9223372036854775809",
    ];
    for case in cases {
        assert_eq!(parse_i64_text(case), case.parse::<i64>().ok(), "{:?}", case);
    }
    assert_eq!(parse_i64_text("-9223372036854775808"), Some(i64::MIN));
}
