use vstd::prelude::*;
use vstd::utf8::{is_char_boundary, is_ascii_chars, is_ascii_chars_encode_utf8, encode_utf8};
use vstd::string::{StringExecFns, StringSliceAdditionalSpecFns, StrSliceExecFns};

verus! {

/// The value of a hexadecimal digit byte.
pub open spec fn hex_digit(c: u8) -> Option<u8> {
    if 48 <= c <= 57 {
        Some((c - 48) as u8)
    } else if 97 <= c <= 102 {
        Some((c - 87) as u8)
    } else if 65 <= c <= 70 {
        Some((c - 55) as u8)
    } else {
        None
    }
}

/// The byte that a two-byte text `a b` parses to in base 16, as
/// `u8::from_str_radix` reads it: two digits, or a plus sign and a digit.
pub open spec fn hex_pair(a: u8, b: u8) -> Option<u8> {
    if a == 43 {
        hex_digit(b)
    } else {
        match (hex_digit(a), hex_digit(b)) {
            (Some(x), Some(y)) => Some((16 * x + y) as u8),
            _ => None,
        }
    }
}

/// Number of leading `#` bytes of `s`.
pub open spec fn leading_hashes(s: Seq<u8>) -> nat
    decreases s.len(),
{
    if s.len() > 0 && s[0] == 35 {
        1 + leading_hashes(s.drop_first())
    } else {
        0
    }
}

/// One color channel: the parsed pair, or 200 when it does not parse.
pub open spec fn channel(a: u8, b: u8) -> u8 {
    match hex_pair(a, b) {
        Some(v) => v,
        None => 200,
    }
}

/// The RGBA color a hex text stands for: after any leading `#`, three
/// two-byte channels, each 200 when it does not parse, and alpha 255; the
/// fallback gray when fewer than six bytes remain.
pub open spec fn hex_color(s: Seq<u8>) -> Seq<u8> {
    let k = leading_hashes(s) as int;
    if s.len() - k >= 6 {
        seq![channel(s[k], s[k + 1]), channel(s[k + 2], s[k + 3]), channel(s[k + 4], s[k + 5]), 255u8]
    } else {
        seq![200u8, 200u8, 200u8, 255u8]
    }
}

proof fn lemma_leading_hashes_bound(s: Seq<u8>)
    ensures
        leading_hashes(s) <= s.len(),
        forall|i: int| 0 <= i < leading_hashes(s) ==> s[i] == 35,
        leading_hashes(s) < s.len() ==> s[leading_hashes(s) as int] != 35,
    decreases s.len(),
{
    if s.len() > 0 && s[0] == 35 {
        lemma_leading_hashes_bound(s.drop_first());
        assert forall|i: int| 0 <= i < leading_hashes(s) implies s[i] == 35 by {
            if i > 0 {
                assert(s[i] == s.drop_first()[i - 1]);
            }
        }
    }
}

fn digit_value(c: u8) -> (r: Option<u8>)
    ensures
        r == hex_digit(c),
{
    if 48 <= c && c <= 57 {
        Some(c - 48)
    } else if 97 <= c && c <= 102 {
        Some(c - 87)
    } else if 65 <= c && c <= 70 {
        Some(c - 55)
    } else {
        None
    }
}

fn parse_channel(a: u8, b: u8) -> (r: u8)
    ensures
        r == channel(a, b),
{
    if a == 43 {
        match digit_value(b) {
            Some(v) => v,
            None => 200,
        }
    } else {
        match (digit_value(a), digit_value(b)) {
            (Some(x), Some(y)) => 16 * x + y,
            _ => 200,
        }
    }
}

/// Parse a `#rrggbb` color. Leading `#` are skipped; a channel that does
/// not parse reads as 200, and a text with fewer than six bytes left gives
/// `[200, 200, 200, 255]`.
pub fn hex_to_rgba(hex: &str) -> (r: [u8; 4])
    requires
        ({
            let s = hex.spec_bytes();
            let k = leading_hashes(s) as int;
            s.len() - k >= 6 ==> is_char_boundary(s, k + 2) && is_char_boundary(s, k + 4) && is_char_boundary(s, k + 6)
        }),
    ensures
        r@ == hex_color(hex.spec_bytes()),
{
    let b = hex.as_bytes();
    proof {
        lemma_leading_hashes_bound(b@);
    }
    let mut k: usize = 0;
    while k < b.len() && b[k] == 35
        invariant
            k <= leading_hashes(b@),
            leading_hashes(b@) <= b@.len(),
            forall|i: int| 0 <= i < leading_hashes(b@) ==> b@[i] == 35,
            leading_hashes(b@) < b@.len() ==> b@[leading_hashes(b@) as int] != 35,
        decreases b.len() - k,
    {
        k = k + 1;
    }
    if b.len() - k >= 6 {
        let r = [
            parse_channel(b[k], b[k + 1]),
            parse_channel(b[k + 2], b[k + 3]),
            parse_channel(b[k + 4], b[k + 5]),
            255,
        ];
        assert(r@ =~= hex_color(b@));
        r
    } else {
        let r = [200u8, 200, 200, 255];
        assert(r@ =~= hex_color(b@));
        r
    }
}

/// The lower-case hexadecimal digit for `v < 16`.
pub open spec fn hex_char(v: u8) -> char {
    if v < 10 {
        (48 + v) as char
    } else {
        (87 + v) as char
    }
}

/// `#` followed by two lower-case hex digits for each of the red, green and
/// blue channels.
pub open spec fn hex_text(c: [u8; 4]) -> Seq<char> {
    seq!['#', hex_char(c[0] / 16), hex_char(c[0] % 16), hex_char(c[1] / 16), hex_char(c[1] % 16),
        hex_char(c[2] / 16), hex_char(c[2] % 16)]
}

/// Format the red, green and blue channels as `#rrggbb`, lower case; alpha
/// is dropped.
pub fn rgba_to_hex(c: [u8; 4]) -> (r: String)
    ensures
        r@ == hex_text(c),
{
    let digits = "0123456789abcdef";
    proof {
        reveal_strlit("0123456789abcdef");
        reveal_strlit("#");
        assert(digits@.len() == 16);
        assert forall|v: int| 0 <= v < 16 implies #[trigger] digits@[v] == hex_char(v as u8) by {}
        assert(is_ascii_chars(digits@));
    }
    let mut s = "#".to_owned();
    let mut i: usize = 0;
    while i < 3
        invariant
            i <= 3,
            digits@.len() == 16,
            forall|v: int| 0 <= v < 16 ==> #[trigger] digits@[v] == hex_char(v as u8),
            digits.is_ascii(),
            s@.len() == 1 + 2 * i,
            s@ == hex_text(c).subrange(0, 1 + 2 * i),
        decreases 3 - i,
    {
        let v = c[i];
        let hi = (v / 16) as usize;
        let lo = (v % 16) as usize;
        s.append(digits.substring_ascii(hi, hi + 1));
        s.append(digits.substring_ascii(lo, lo + 1));
        proof {
            assert(s@ =~= hex_text(c).subrange(0, 1 + 2 * (i + 1)));
        }
        i = i + 1;
    }
    s
}

/// Formatting a color as hex text and parsing the text back gives the color
/// with full alpha.
pub proof fn lemma_hex_roundtrip(c: [u8; 4])
    ensures
        hex_color(encode_utf8(hex_text(c))) == seq![c[0], c[1], c[2], 255u8],
{
    let t = hex_text(c);
    assert(t.len() == 7);
    assert forall|i: int| 0 <= i < t.len() implies '\0' <= #[trigger] t[i] <= '\u{7f}' by {}
    assert(is_ascii_chars(t));
    is_ascii_chars_encode_utf8(t);
    let b = encode_utf8(t);
    assert(b.len() == 7);
    assert forall|i: int| 0 <= i < 7 implies #[trigger] b[i] == t[i] as u8 by {
        assert(t[i] == t[i]);
    }
    assert(b[0] == 35);
    assert(b.drop_first()[0] == b[1]);
    assert(b[1] != 35);
    assert(leading_hashes(b.drop_first()) == 0);
    assert(leading_hashes(b) == 1);
    assert forall|v: u8| v < 16 implies hex_digit(#[trigger] (hex_char(v) as u8)) == Some(v) && hex_char(v) as u8 != 43 by {}
    assert forall|v: u8| #[trigger] channel(hex_char(v / 16) as u8, hex_char(v % 16) as u8) == v by {
        assert(v / 16 < 16);
        assert(v % 16 < 16);
        assert(16 * (v / 16) + v % 16 == v) by (nonlinear_arith);
    }
    assert(b[1] == hex_char(c[0] / 16) as u8);
    assert(b[2] == hex_char(c[0] % 16) as u8);
    assert(b[3] == hex_char(c[1] / 16) as u8);
    assert(b[4] == hex_char(c[1] % 16) as u8);
    assert(b[5] == hex_char(c[2] / 16) as u8);
    assert(b[6] == hex_char(c[2] % 16) as u8);
    assert(hex_color(b) =~= seq![c[0], c[1], c[2], 255u8]);
}

} // verus!
