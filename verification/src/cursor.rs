//! Opaque page cursors: the base64 text of a row's decimal position.
use crate::decimal::{
    decimal_text, lemma_decimal_text_digits, lemma_digit_bytes_of_chars,
    lemma_usize_text_round_trip, parse_usize_bytes, render_usize, usize_from_bytes,
};
use vstd::prelude::*;
use vstd::utf8::encode_utf8;

verus! {

/// The character of a six-bit value in the standard base64 alphabet:
/// `A`-`Z`, `a`-`z`, `0`-`9`, `+`, `/`.
pub open spec fn base64_digit(v: int) -> char {
    if v < 26 {
        (65 + v) as char
    } else if v < 52 {
        (97 + v - 26) as char
    } else if v < 62 {
        (48 + v - 52) as char
    } else if v == 62 {
        '+'
    } else {
        '/'
    }
}

/// The standard padded base64 encoding of `bytes`: each group of three
/// bytes becomes four characters of six bits each, the most significant
/// first; a last group of one or two bytes is filled out with zero bits and
/// `=` padding.
pub open spec fn base64_text(bytes: Seq<u8>) -> Seq<char>
    decreases bytes.len(),
{
    if bytes.len() == 0 {
        Seq::empty()
    } else {
        let b0 = bytes[0] as int;
        let b1 = if bytes.len() > 1 {
            bytes[1] as int
        } else {
            0
        };
        let b2 = if bytes.len() > 2 {
            bytes[2] as int
        } else {
            0
        };
        let first = base64_digit(b0 / 4);
        let second = base64_digit((b0 % 4) * 16 + b1 / 16);
        if bytes.len() == 1 {
            seq![first, second, '=', '=']
        } else if bytes.len() == 2 {
            seq![first, second, base64_digit((b1 % 16) * 4), '=']
        } else {
            seq![first, second, base64_digit((b1 % 16) * 4 + b2 / 64), base64_digit(b2 % 64)]
                + base64_text(bytes.skip(3))
        }
    }
}

/// The encoding holds four characters for each started group of three bytes.
pub proof fn lemma_base64_text_len(bytes: Seq<u8>)
    ensures
        base64_text(bytes).len() == 4 * ((bytes.len() + 2) / 3),
    decreases bytes.len(),
{
    if bytes.len() >= 3 {
        lemma_base64_text_len(bytes.skip(3));
    }
}

/// What `base64::decode` (standard alphabet) gives back for the UTF-8 bytes of
/// `text`: the decoded bytes, or `None` where it reports a `DecodeError`.
pub uninterp spec fn base64_decoded(text: Seq<char>) -> Option<Seq<u8>>;

/// Calls `base64::encode` on the bytes of `text`.
///
/// Trusted: the result is the standard padded encoding `base64_text` of the
/// text's UTF-8 bytes (the crate's `STANDARD` configuration); the bound on the
/// length keeps the crate's `encoded_size` computation from overflowing, on
/// which it would panic.
#[verifier::external_body]
fn base64_encode(text: &str) -> (encoded: String)
    requires
        text@.len() <= usize::MAX / 8,
    ensures
        encoded@ == base64_text(encode_utf8(text@)),
{
    base64::encode(text)
}

/// Calls `base64::decode` on the bytes of `text`, keeping the bytes and
/// dropping the error.
///
/// Trusted: the result is named `base64_decoded` of the text, and decoding
/// the standard encoding of some bytes gives back exactly those bytes (the
/// crate's round trip for the standard configuration). The bound on the
/// length keeps the crate's buffer-size computation from overflowing.
#[verifier::external_body]
fn base64_decode(text: &str) -> (decoded: Option<Vec<u8>>)
    requires
        text@.len() <= usize::MAX / 8,
    ensures
        decoded is Some <==> base64_decoded(text@) is Some,
        decoded matches Some(bytes) ==> base64_decoded(text@) == Some(bytes@),
        decoded matches Some(bytes) ==> forall|plain: Seq<u8>|
            #[trigger] base64_text(plain) == text@ ==> bytes@ == plain,
        decoded is None ==> forall|plain: Seq<u8>| #[trigger] base64_text(plain) != text@,
{
    base64::decode(text).ok()
}

/// The cursor handed out for the row at position `id`.
pub open spec fn cursor_text(id: usize) -> Seq<char> {
    base64_text(encode_utf8(decimal_text(id as nat)))
}

/// The position a cursor text stands for, if it stands for one: the base64
/// decoding of the text read as a decimal `usize`.
pub open spec fn cursor_position(cursor: Seq<char>) -> Option<usize> {
    match base64_decoded(cursor) {
        Some(bytes) => usize_from_bytes(bytes),
        None => None,
    }
}

/// Ten to the power `k`.
pub open spec fn pow10(k: nat) -> nat
    decreases k,
{
    if k == 0 {
        1
    } else {
        10 * pow10((k - 1) as nat)
    }
}

proof fn lemma_decimal_text_len(n: nat, k: nat)
    requires
        k >= 1,
        n < pow10(k),
    ensures
        decimal_text(n).len() <= k,
    decreases k,
{
    if n >= 10 {
        assert(k >= 2) by {
            if k == 1 {
                assert(pow10(1) == 10) by {
                    reveal_with_fuel(pow10, 2);
                }
            }
        }
        assert(n / 10 < pow10((k - 1) as nat));
        lemma_decimal_text_len(n / 10, (k - 1) as nat);
    }
}

proof fn lemma_usize_text_short(n: usize)
    ensures
        decimal_text(n as nat).len() <= 20,
{
    assert(pow10(20) == 100000000000000000000nat) by {
        reveal_with_fuel(pow10, 21);
    }
    lemma_decimal_text_len(n as nat, 20);
}

/// Encodes the position `id` as a cursor: `base64::encode(id.to_string())`.
pub fn encode_cursor(id: usize) -> (cursor: String)
    ensures
        cursor@ == cursor_text(id),
        cursor@.len() <= 28,
{
    let text = render_usize(id);
    proof {
        lemma_usize_text_short(id);
        lemma_decimal_text_digits(id as nat);
        lemma_digit_bytes_of_chars(decimal_text(id as nat));
        lemma_base64_text_len(encode_utf8(decimal_text(id as nat)));
    }
    base64_encode(text.as_str())
}

/// Decodes a cursor back to a position: the base64 decoding of `value`, read
/// as a decimal `usize`; `None` where either step fails.
///
/// Every cursor that `encode_cursor` hands out decodes to its own position.
pub fn decode_cursor(value: &str) -> (id: Option<usize>)
    requires
        value@.len() <= usize::MAX / 8,
    ensures
        id == cursor_position(value@),
        forall|n: usize| value@ == #[trigger] cursor_text(n) ==> id == Some(n),
{
    let decoded = base64_decode(value);
    proof {
        assert forall|n: usize| value@ == #[trigger] cursor_text(n) implies decoded matches Some(
            bytes,
        ) && usize_from_bytes(bytes@) == Some(n) by {
            lemma_usize_text_round_trip(n);
        }
    }
    match decoded {
        Some(bytes) => parse_usize_bytes(bytes.as_slice()),
        None => None,
    }
}

} // verus!
