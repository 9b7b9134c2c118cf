//! Decimal text of integers: rendering as `to_string` does and reading back as
//! `str::parse` does for the integer types this service uses.
use vstd::prelude::*;
use vstd::utf8::*;

verus! {

/// The character of the decimal digit `d` (`d < 10`).
pub open spec fn digit_char(d: nat) -> char {
    (d + 48) as char
}

/// Decimal text of `n` without sign or leading zeros, as `to_string` renders it.
pub open spec fn decimal_text(n: nat) -> Seq<char>
    decreases n,
{
    if n < 10 {
        seq![digit_char(n)]
    } else {
        decimal_text(n / 10).push(digit_char(n % 10))
    }
}

/// Whether `c` is one of the ASCII digits `0`..`9`.
pub open spec fn is_digit_char(c: char) -> bool {
    '0' <= c <= '9'
}

/// Whether every character of `s` is an ASCII digit.
pub open spec fn all_digit_chars(s: Seq<char>) -> bool {
    forall|i: int| 0 <= i < s.len() ==> is_digit_char(#[trigger] s[i])
}

/// The value of a run of ASCII digit characters, most significant first.
pub open spec fn char_digits_value(s: Seq<char>) -> nat
    decreases s.len(),
{
    if s.len() == 0 {
        0
    } else {
        char_digits_value(s.drop_last()) * 10 + ((s.last() as int) - 48) as nat
    }
}

/// Whether `b` is the byte of an ASCII digit.
pub open spec fn is_digit_byte(b: u8) -> bool {
    48 <= b <= 57
}

/// Whether every byte of `s` is an ASCII digit.
pub open spec fn all_digit_bytes(s: Seq<u8>) -> bool {
    forall|i: int| 0 <= i < s.len() ==> is_digit_byte(#[trigger] s[i])
}

/// The value of a run of ASCII digit bytes, most significant first.
pub open spec fn byte_digits_value(s: Seq<u8>) -> nat
    decreases s.len(),
{
    if s.len() == 0 {
        0
    } else {
        byte_digits_value(s.drop_last()) * 10 + (s.last() - 48) as nat
    }
}

/// What `str::parse::<usize>` yields for the text whose bytes are `s`: an
/// optional leading `+`, then one or more ASCII digits whose value fits.
/// Bytes that are not ASCII never form a digit, so this is also the result of
/// parsing `String::from_utf8_lossy(s)`.
pub open spec fn usize_from_bytes(s: Seq<u8>) -> Option<usize> {
    let digits = if s.len() > 0 && s[0] == 43u8 { s.drop_first() } else { s };
    if digits.len() > 0 && all_digit_bytes(digits) && byte_digits_value(digits) <= usize::MAX {
        Some(byte_digits_value(digits) as usize)
    } else {
        None
    }
}

/// What `str::parse::<i64>` yields for `s`: an optional leading `+` or `-`,
/// then one or more ASCII digits whose signed value fits in an `i64`.
pub open spec fn i64_from_text(s: Seq<char>) -> Option<i64> {
    if s.len() == 0 {
        None
    } else {
        let negative = s[0] == '-';
        let digits = if s[0] == '-' || s[0] == '+' { s.drop_first() } else { s };
        let magnitude = char_digits_value(digits) as int;
        let value = if negative { -magnitude } else { magnitude };
        if digits.len() > 0 && all_digit_chars(digits) && i64::MIN <= value <= i64::MAX {
            Some(value as i64)
        } else {
            None
        }
    }
}

fn digit_str(d: usize) -> (s: &'static str)
    requires
        d < 10,
    ensures
        s@ == seq![digit_char(d as nat)],
{
    proof {
        reveal_strlit("0");
        reveal_strlit("1");
        reveal_strlit("2");
        reveal_strlit("3");
        reveal_strlit("4");
        reveal_strlit("5");
        reveal_strlit("6");
        reveal_strlit("7");
        reveal_strlit("8");
        reveal_strlit("9");
    }
    let s = if d == 0 {
        "0"
    } else if d == 1 {
        "1"
    } else if d == 2 {
        "2"
    } else if d == 3 {
        "3"
    } else if d == 4 {
        "4"
    } else if d == 5 {
        "5"
    } else if d == 6 {
        "6"
    } else if d == 7 {
        "7"
    } else if d == 8 {
        "8"
    } else {
        "9"
    };
    assert(s@ =~= seq![digit_char(d as nat)]);
    s
}

/// Renders `n` in decimal, as `n.to_string()` does.
pub fn render_usize(n: usize) -> (text: String)
    ensures
        text@ == decimal_text(n as nat),
    decreases n,
{
    if n < 10 {
        String::from_str(digit_str(n))
    } else {
        let mut text = render_usize(n / 10);
        text.append(digit_str(n % 10));
        text
    }
}


/// A prefix of a run of digits never has a larger value than the whole run.
pub proof fn lemma_byte_prefix_value_le(s: Seq<u8>, i: int)
    requires
        all_digit_bytes(s),
        0 <= i <= s.len(),
    ensures
        byte_digits_value(s.take(i)) <= byte_digits_value(s),
    decreases s.len(),
{
    if i < s.len() {
        assert(s.take(i) =~= s.drop_last().take(i));
        lemma_byte_prefix_value_le(s.drop_last(), i);
    } else {
        assert(s.take(i) =~= s);
    }
}

/// A prefix of a run of digit characters never has a larger value than the whole run.
pub proof fn lemma_char_prefix_value_le(s: Seq<char>, i: int)
    requires
        all_digit_chars(s),
        0 <= i <= s.len(),
    ensures
        char_digits_value(s.take(i)) <= char_digits_value(s),
    decreases s.len(),
{
    if i < s.len() {
        assert(s.take(i) =~= s.drop_last().take(i));
        lemma_char_prefix_value_le(s.drop_last(), i);
    } else {
        assert(s.take(i) =~= s);
    }
}

proof fn lemma_step_overflows(acc: nat, d: nat, limit: nat)
    requires
        d < 10,
        d <= limit,
        acc > (limit - d) / 10,
    ensures
        acc * 10 + d > limit,
{
    assert(acc * 10 + d > limit) by (nonlinear_arith)
        requires
            d <= limit,
            acc > (limit - d) / 10,
    ;
}

proof fn lemma_step_fits(acc: nat, d: nat, limit: nat)
    requires
        d <= limit,
        acc <= (limit - d) / 10,
    ensures
        acc * 10 + d <= limit,
{
    assert(acc * 10 + d <= limit) by (nonlinear_arith)
        requires
            d <= limit,
            acc <= (limit - d) / 10,
    ;
}

/// Reads the bytes of a decimal text as `str::parse::<usize>` reads it.
pub fn parse_usize_bytes(bytes: &[u8]) -> (r: Option<usize>)
    ensures
        r == usize_from_bytes(bytes@),
{
    let len = bytes.len();
    let start: usize = if len > 0 && bytes[0] == 43u8 {
        1
    } else {
        0
    };
    let ghost digits = if bytes@.len() > 0 && bytes@[0] == 43u8 {
        bytes@.drop_first()
    } else {
        bytes@
    };
    assert(digits =~= bytes@.subrange(start as int, len as int));
    if start == len {
        return None;
    }
    let mut acc: usize = 0;
    let mut i: usize = start;
    assert(digits.take(0) =~= Seq::<u8>::empty());
    while i < len
        invariant
            start <= i <= len,
            len == bytes@.len(),
            start < len,
            digits =~= bytes@.subrange(start as int, len as int),
            digits == (if bytes@.len() > 0 && bytes@[0] == 43u8 {
                bytes@.drop_first()
            } else {
                bytes@
            }),
            all_digit_bytes(digits.take(i - start)),
            acc as nat == byte_digits_value(digits.take(i - start)),
        decreases len - i,
    {
        let b = bytes[i];
        let k: usize = i - start;
        if b < 48u8 || b > 57u8 {
            assert(!is_digit_byte(digits[k as int]));
            assert(!all_digit_bytes(digits));
            return None;
        }
        let d: usize = (b - 48u8) as usize;
        assert(digits.take(k + 1).drop_last() =~= digits.take(k as int));
        assert(all_digit_bytes(digits.take(k + 1)));
        assert(byte_digits_value(digits.take(k + 1)) == acc as nat * 10 + d as nat);
        if acc > (usize::MAX - d) / 10 {
            proof {
                lemma_step_overflows(acc as nat, d as nat, usize::MAX as nat);
                if all_digit_bytes(digits) {
                    lemma_byte_prefix_value_le(digits, k + 1);
                }
            }
            return None;
        }
        proof {
            lemma_step_fits(acc as nat, d as nat, usize::MAX as nat);
        }
        acc = acc * 10 + d;
        i = i + 1;
    }
    assert(digits.take(len - start) =~= digits);
    Some(acc)
}

/// Reads a decimal text as `str::parse::<i64>` reads it.
pub fn parse_i64_text(text: &str) -> (r: Option<i64>)
    ensures
        r == i64_from_text(text@),
{
    let len = text.unicode_len();
    if len == 0 {
        return None;
    }
    let first = text.get_char(0);
    let negative = first == '-';
    let start: usize = if first == '-' || first == '+' {
        1
    } else {
        0
    };
    let ghost digits = if text@[0] == '-' || text@[0] == '+' {
        text@.drop_first()
    } else {
        text@
    };
    assert(digits =~= text@.subrange(start as int, len as int));
    if start == len {
        return None;
    }
    let limit: u64 = if negative {
        0x8000_0000_0000_0000u64
    } else {
        0x7fff_ffff_ffff_ffffu64
    };
    let mut acc: u64 = 0;
    let mut i: usize = start;
    assert(digits.take(0) =~= Seq::<char>::empty());
    while i < len
        invariant
            start <= i <= len,
            len == text@.len(),
            start < len,
            digits =~= text@.subrange(start as int, len as int),
            digits == (if text@[0] == '-' || text@[0] == '+' {
                text@.drop_first()
            } else {
                text@
            }),
            negative == (text@[0] == '-'),
            limit == (if negative {
                0x8000_0000_0000_0000u64
            } else {
                0x7fff_ffff_ffff_ffffu64
            }),
            all_digit_chars(digits.take(i - start)),
            acc as nat == char_digits_value(digits.take(i - start)),
            acc <= limit,
        decreases len - i,
    {
        let c = text.get_char(i);
        let k: usize = i - start;
        if !('0' <= c && c <= '9') {
            assert(!is_digit_char(digits[k as int]));
            assert(!all_digit_chars(digits));
            return None;
        }
        let d: u64 = (c as u64) - 48;
        assert(digits.take(k + 1).drop_last() =~= digits.take(k as int));
        assert(all_digit_chars(digits.take(k + 1)));
        assert(char_digits_value(digits.take(k + 1)) == acc as nat * 10 + d as nat);
        if d > limit || acc > (limit - d) / 10 {
            proof {
                if d <= limit {
                    lemma_step_overflows(acc as nat, d as nat, limit as nat);
                }
                if all_digit_chars(digits) {
                    lemma_char_prefix_value_le(digits, k + 1);
                }
            }
            return None;
        }
        proof {
            lemma_step_fits(acc as nat, d as nat, limit as nat);
        }
        acc = acc * 10 + d;
        i = i + 1;
    }
    assert(digits.take(len - start) =~= digits);
    if negative {
        if acc == 0x8000_0000_0000_0000u64 {
            Some(i64::MIN)
        } else {
            Some(-(acc as i64))
        }
    } else {
        Some(acc as i64)
    }
}

/// The decimal text of `n` is a non-empty run of ASCII digits whose value is `n`.
pub proof fn lemma_decimal_text_digits(n: nat)
    ensures
        decimal_text(n).len() > 0,
        all_digit_chars(decimal_text(n)),
        is_ascii_chars(decimal_text(n)),
        char_digits_value(decimal_text(n)) == n,
    decreases n,
{
    let t = decimal_text(n);
    if n < 10 {
        assert(t.drop_last() =~= Seq::<char>::empty());
        assert((digit_char(n) as int) == n + 48);
        assert(t.last() == digit_char(n));
        assert(char_digits_value(t) == char_digits_value(t.drop_last()) * 10 + n);
    } else {
        lemma_decimal_text_digits(n / 10);
        assert(t.drop_last() =~= decimal_text(n / 10));
        assert((digit_char(n % 10) as int) == n % 10 + 48);
        assert(t.last() == digit_char(n % 10));
        assert(char_digits_value(t) == (n / 10) * 10 + n % 10);
        assert forall|i: int| 0 <= i < t.len() implies is_digit_char(#[trigger] t[i]) by {
            if i < t.len() - 1 {
                assert(t[i] == decimal_text(n / 10)[i]);
            }
        }
        assert forall|i: int| 0 <= i < t.len() implies '\0' <= #[trigger] t[i] <= '\u{7f}' by {
            if i < t.len() - 1 {
                assert(t[i] == decimal_text(n / 10)[i]);
            }
        }
    }
}

/// The bytes of an ASCII digit text hold the same digits with the same value.
pub proof fn lemma_digit_bytes_of_chars(t: Seq<char>)
    requires
        all_digit_chars(t),
    ensures
        encode_utf8(t).len() == t.len(),
        all_digit_bytes(encode_utf8(t)),
        byte_digits_value(encode_utf8(t)) == char_digits_value(t),
    decreases t.len(),
{
    assert(is_ascii_chars(t));
    is_ascii_chars_encode_utf8(t);
    let b = encode_utf8(t);
    assert forall|i: int| 0 <= i < b.len() implies is_digit_byte(#[trigger] b[i]) by {
        assert(t[i] as u8 == b[i]);
        assert(is_digit_char(t[i]));
    }
    if t.len() > 0 {
        let u = t.drop_last();
        assert(all_digit_chars(u));
        lemma_digit_bytes_of_chars(u);
        is_ascii_chars_encode_utf8(u);
        assert(b.drop_last() =~= encode_utf8(u)) by {
            assert forall|i: int| 0 <= i < u.len() implies b.drop_last()[i] == encode_utf8(u)[i] by {
                assert(t[i] == u[i]);
                assert(t[i] as u8 == b[i]);
                assert(u[i] as u8 == encode_utf8(u)[i]);
            }
        }
        assert(t.last() as u8 == b.last());
    }
}

/// Law: reading back the decimal text of a `usize` gives the same `usize`.
pub proof fn lemma_usize_text_round_trip(n: usize)
    ensures
        usize_from_bytes(encode_utf8(decimal_text(n as nat))) == Some(n),
{
    let t = decimal_text(n as nat);
    lemma_decimal_text_digits(n as nat);
    lemma_digit_bytes_of_chars(t);
    is_ascii_chars_encode_utf8(t);
    let b = encode_utf8(t);
    assert(b[0] == t[0] as u8);
    assert(is_digit_char(t[0]));
}

} // verus!
