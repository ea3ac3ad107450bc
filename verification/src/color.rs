//! Colour literals of the window description language: `RRGGBBAA`,
//! `RRGGBB`, `RGBA` and `RGB` in hexadecimal.
use vstd::prelude::*;
use vstd::utf8::is_char_boundary;
use vstd::string::StringSliceAdditionalSpecFns;

verus! {

/// Repeats a nibble: `0xA` becomes `0xAA`.
pub fn shiftaddup4(u: u8) -> (r: u8)
    ensures
        r == ((u << 4u8) | u),
        u < 16 ==> r == u * 17,
{
    let r = (u << 4u8) | u;
    assert(u < 16 ==> ((u << 4u8) | u) == u * 17) by (bit_vector);
    r
}

/// The value of an ASCII hexadecimal digit.
pub open spec fn hex_digit(b: u8) -> Option<int> {
    if 48 <= b <= 57 {
        Some(b - 48)
    } else if 97 <= b <= 102 {
        Some(b - 87)
    } else if 65 <= b <= 70 {
        Some(b - 55)
    } else {
        None
    }
}

/// The value of the hexadecimal digits `ds`, if all of them are digits.
pub open spec fn hex_digits(ds: Seq<u8>) -> Option<int>
    decreases ds.len(),
{
    if ds.len() == 0 {
        Some(0)
    } else {
        match (hex_digits(ds.drop_last()), hex_digit(ds.last())) {
            (Some(v), Some(d)) => Some(v * 16 + d),
            _ => None,
        }
    }
}

/// What `u8::from_str_radix(s, 16)` gives for a string with bytes `bs`:
/// an optional `+` followed by at least one digit, with a value below 256.
pub open spec fn parse_hex_u8(bs: Seq<u8>) -> Option<u8> {
    let ds = if bs.len() > 0 && bs[0] == 43 {
        bs.drop_first()
    } else {
        bs
    };
    if ds.len() == 0 {
        None
    } else {
        match hex_digits(ds) {
            Some(v) => if v <= 255 {
                Some(v as u8)
            } else {
                None
            },
            None => None,
        }
    }
}

/// The value of the bytes `bs[a..b]` read as hexadecimal, or `dflt`.
pub open spec fn hex_or(bs: Seq<u8>, a: int, b: int, dflt: u8) -> u8 {
    match parse_hex_u8(bs.subrange(a, b)) {
        Some(v) => v,
        None => dflt,
    }
}

/// The colour (r, g, b, a) that the literal with bytes `bs` denotes;
/// magenta for a literal of any other length.
pub open spec fn spec_color(bs: Seq<u8>) -> (u8, u8, u8, u8) {
    if bs.len() == 8 {
        (hex_or(bs, 0, 2, 0), hex_or(bs, 2, 4, 0), hex_or(bs, 4, 6, 0), hex_or(bs, 6, 8, 255))
    } else if bs.len() == 6 {
        (hex_or(bs, 0, 2, 0), hex_or(bs, 2, 4, 0), hex_or(bs, 4, 6, 0), 255)
    } else if bs.len() == 4 {
        (
            (hex_or(bs, 0, 1, 0) << 4u8) | hex_or(bs, 0, 1, 0),
            (hex_or(bs, 1, 2, 0) << 4u8) | hex_or(bs, 1, 2, 0),
            (hex_or(bs, 2, 3, 0) << 4u8) | hex_or(bs, 2, 3, 0),
            (hex_or(bs, 3, 4, 15) << 4u8) | hex_or(bs, 3, 4, 15),
        )
    } else if bs.len() == 3 {
        (
            (hex_or(bs, 0, 1, 0) << 4u8) | hex_or(bs, 0, 1, 0),
            (hex_or(bs, 1, 2, 0) << 4u8) | hex_or(bs, 1, 2, 0),
            (hex_or(bs, 2, 3, 0) << 4u8) | hex_or(bs, 2, 3, 0),
            255,
        )
    } else {
        (255, 0, 255, 255)
    }
}

/// The literal can be cut at every digit group boundary: none of them
/// falls inside a multi-byte character.
pub open spec fn color_ok(bs: Seq<u8>) -> bool {
    &&& bs.len() == 8 ==> is_char_boundary(bs, 2) && is_char_boundary(bs, 4) && is_char_boundary(bs, 6)
    &&& bs.len() == 6 ==> is_char_boundary(bs, 2) && is_char_boundary(bs, 4)
    &&& (bs.len() == 4 || bs.len() == 3) ==> is_char_boundary(bs, 1) && is_char_boundary(bs, 2)
    &&& bs.len() == 4 ==> is_char_boundary(bs, 3)
}

/// The hexadecimal digits are exactly `0`-`9`, `a`-`f` and `A`-`F`: `0`
/// to `9` are worth 0 to 9, and a letter is worth 10 to 15 by its place
/// in the alphabet, in either case.
pub proof fn law_hex_digit_values(b: u8)
    ensures
        hex_digit(b) is Some <==> (48 <= b <= 57 || 97 <= b <= 102 || 65 <= b <= 70),
        48 <= b <= 57 ==> hex_digit(b) == Some(b - 48),
        97 <= b <= 102 ==> hex_digit(b) == Some(b - 97 + 10),
        65 <= b <= 70 ==> hex_digit(b) == Some(b - 65 + 10),
        65 <= b <= 70 ==> hex_digit(b) == hex_digit((b + 32) as u8),
{
}

/// Two hexadecimal digits at `a` read as sixteen times the first plus the
/// second.
proof fn lemma_two_digit_group(bs: Seq<u8>, a: int)
    requires
        0 <= a && a + 2 <= bs.len(),
        hex_digit(bs[a]) is Some,
        hex_digit(bs[a + 1]) is Some,
    ensures
        hex_or(bs, a, a + 2, 0) == 16 * hex_digit(bs[a])->0 + hex_digit(bs[a + 1])->0,
{
    let g = bs.subrange(a, a + 2);
    assert(g[0] == bs[a] && g[1] == bs[a + 1]);
    assert(g.drop_last().drop_last() =~= Seq::<u8>::empty());
    assert(g.drop_last().last() == bs[a]);
    assert(g.last() == bs[a + 1]);
    assert(g[0] != 43);
    assert(hex_digits(g) == Some(16 * hex_digit(bs[a])->0 + hex_digit(bs[a + 1])->0)) by {
        reveal_with_fuel(hex_digits, 3);
    }
}

/// Each two-digit group of a six-digit literal made of hexadecimal digits
/// reads as sixteen times its first digit plus its second, and the colour
/// is opaque.
pub proof fn law_six_digit_groups(bs: Seq<u8>)
    requires
        bs.len() == 6,
        forall|k: int| 0 <= k < 6 ==> #[trigger] hex_digit(bs[k]) is Some,
    ensures
        spec_color(bs).0 == 16 * hex_digit(bs[0])->0 + hex_digit(bs[1])->0,
        spec_color(bs).1 == 16 * hex_digit(bs[2])->0 + hex_digit(bs[3])->0,
        spec_color(bs).2 == 16 * hex_digit(bs[4])->0 + hex_digit(bs[5])->0,
        spec_color(bs).3 == 255,
{
    lemma_two_digit_group(bs, 0);
    lemma_two_digit_group(bs, 2);
    lemma_two_digit_group(bs, 4);
}

fn hex_digit_of(b: u8) -> (r: Option<u8>)
    ensures
        match r {
            Some(v) => hex_digit(b) == Some(v as int),
            None => hex_digit(b) is None,
        },
{
    if 48 <= b && b <= 57 {
        Some(b - 48)
    } else if 97 <= b && b <= 102 {
        Some(b - 87)
    } else if 65 <= b && b <= 70 {
        Some(b - 55)
    } else {
        None
    }
}

proof fn lemma_hex_digits_bound(ds: Seq<u8>)
    ensures
        hex_digits(ds) matches Some(v) ==> 0 <= v,
    decreases ds.len(),
{
    if ds.len() > 0 {
        lemma_hex_digits_bound(ds.drop_last());
    }
}

/// Parses `bs[a..b]` (one or two bytes) like `u8::from_str_radix(_, 16)`.
fn parse_hex_slice(bs: &[u8], a: usize, b: usize) -> (r: Option<u8>)
    requires
        a < b <= bs@.len(),
        b - a <= 2,
    ensures
        r == parse_hex_u8(bs@.subrange(a as int, b as int)),
{
    let ghost sub = bs@.subrange(a as int, b as int);
    let mut start = a;
    if bs[a] == 43 {
        start = a + 1;
    }
    let ghost ds = bs@.subrange(start as int, b as int);
    assert(ds == (if sub.len() > 0 && sub[0] == 43 { sub.drop_first() } else { sub }));
    if start == b {
        return None;
    }
    let mut v: u16 = 0;
    let mut i = start;
    while i < b
        invariant
            start <= i <= b,
            b <= bs@.len(),
            b - start <= 2,
            ds == bs@.subrange(start as int, b as int),
            sub == bs@.subrange(a as int, b as int),
            ds == (if sub.len() > 0 && sub[0] == 43 { sub.drop_first() } else { sub }),
            ds.len() > 0,
            hex_digits(bs@.subrange(start as int, i as int)) == Some(v as int),
            v < 16 * 16 * 16,
            i - start <= 2,
            v < pow16(i - start),
        decreases b - i,
    {
        match hex_digit_of(bs[i]) {
            Some(d) => {
                proof {
                    assert(bs@.subrange(start as int, i + 1).drop_last() == bs@.subrange(start as int, i as int));
                    assert(bs@.subrange(start as int, i + 1).last() == bs@[i as int]);
                }
                v = v * 16 + d as u16;
                i = i + 1;
            },
            None => {
                proof {
                    lemma_hex_digits_none(bs@, start as int, i as int, b as int);
                }
                return None;
            },
        }
    }
    proof {
        lemma_hex_digits_bound(ds);
    }
    if v <= 255 {
        Some(v as u8)
    } else {
        None
    }
}

/// 16 to the power `n`, for `n` up to 2.
pub open spec fn pow16(n: int) -> int {
    if n <= 0 {
        1
    } else if n == 1 {
        16
    } else {
        256
    }
}

proof fn lemma_hex_digits_none(bs: Seq<u8>, start: int, i: int, b: int)
    requires
        0 <= start <= i < b <= bs.len(),
        hex_digit(bs[i]) is None,
    ensures
        hex_digits(bs.subrange(start, b)) is None,
    decreases b - i,
{
    let s = bs.subrange(start, b);
    if i == b - 1 {
        assert(s.last() == bs[i]);
    } else {
        lemma_hex_digits_none(bs, start, i, b - 1);
        assert(s.drop_last() == bs.subrange(start, b - 1));
    }
}

/// Reads a colour literal: eight, six, four or three hexadecimal digits
/// for (r, g, b[, a]); a group that does not parse reads as 0 (alpha as
/// fully opaque). Literals of any other length give magenta.
pub fn color_hex24tpl(s: &str) -> (c: (u8, u8, u8, u8))
    requires
        color_ok(s.spec_bytes()),
    ensures
        c == spec_color(s.spec_bytes()),
{
    let bs = s.as_bytes();
    let n = bs.len();
    if n == 8 {
        (
            hex_or_default(bs, 0, 2, 0),
            hex_or_default(bs, 2, 4, 0),
            hex_or_default(bs, 4, 6, 0),
            hex_or_default(bs, 6, 8, 255),
        )
    } else if n == 6 {
        (hex_or_default(bs, 0, 2, 0), hex_or_default(bs, 2, 4, 0), hex_or_default(bs, 4, 6, 0), 255)
    } else if n == 4 {
        (
            shiftaddup4(hex_or_default(bs, 0, 1, 0)),
            shiftaddup4(hex_or_default(bs, 1, 2, 0)),
            shiftaddup4(hex_or_default(bs, 2, 3, 0)),
            shiftaddup4(hex_or_default(bs, 3, 4, 0xF)),
        )
    } else if n == 3 {
        (
            shiftaddup4(hex_or_default(bs, 0, 1, 0)),
            shiftaddup4(hex_or_default(bs, 1, 2, 0)),
            shiftaddup4(hex_or_default(bs, 2, 3, 0)),
            255,
        )
    } else {
        (255, 0, 255, 255)
    }
}

fn hex_or_default(bs: &[u8], a: usize, b: usize, dflt: u8) -> (r: u8)
    requires
        a < b <= bs@.len(),
        b - a <= 2,
    ensures
        r == hex_or(bs@, a as int, b as int, dflt),
{
    match parse_hex_slice(bs, a, b) {
        Some(v) => v,
        None => dflt,
    }
}

} // verus!
