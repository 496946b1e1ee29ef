use vstd::prelude::*;
use crate::text::chars_of;

verus! {

/// The value of a digit character in a radix (2..=36), if it is one:
/// `0-9`, then `a-z` / `A-Z` for 10 and up.
pub open spec fn digit_value(c: char, radix: int) -> Option<int> {
    let v = c as u32 as int;
    let d = if 48 <= v <= 57 {
        v - 48
    } else if 97 <= v <= 122 {
        v - 97 + 10
    } else if 65 <= v <= 90 {
        v - 65 + 10
    } else {
        radix
    };
    if d < radix {
        Some(d)
    } else {
        None
    }
}

/// The number the first `k` characters of `s` write in `radix`, if all of
/// them are digits.
pub open spec fn digits_value(s: Seq<char>, radix: int, k: int) -> Option<int>
    decreases k,
{
    if k <= 0 {
        Some(0)
    } else {
        match (digits_value(s, radix, k - 1), digit_value(s[k - 1], radix)) {
            (Some(v), Some(d)) => Some(v * radix + d),
            _ => None,
        }
    }
}

/// The `u32` a string writes in `radix` as `u32::from_str_radix` reads it:
/// an optional leading `+` (not alone), then at least one digit, and a value
/// that fits `u32`.
pub open spec fn parse_unsigned(s: Seq<char>, radix: int) -> Option<u32> {
    let d = if s.len() > 1 && s[0] == '+' {
        s.drop_first()
    } else {
        s
    };
    if d.len() == 0 {
        None
    } else {
        match digits_value(d, radix, d.len() as int) {
            Some(v) => if v <= u32::MAX {
                Some(v as u32)
            } else {
                None
            },
            None => None,
        }
    }
}

/// The color a command-line argument names: hexadecimal after a `0x` or `#`
/// prefix, decimal otherwise.
pub open spec fn color_value(s: Seq<char>) -> Option<u32> {
    if s.len() >= 2 && s[0] == '0' && s[1] == 'x' {
        parse_unsigned(s.subrange(2, s.len() as int), 16)
    } else if s.len() >= 1 && s[0] == '#' {
        parse_unsigned(s.drop_first(), 16)
    } else {
        parse_unsigned(s, 10)
    }
}

/// Digit value of one character.
fn digit_of(c: char, radix: u32) -> (r: Option<u32>)
    requires
        2 <= radix <= 36,
    ensures
        match r {
            Some(d) => digit_value(c, radix as int) == Some(d as int),
            None => digit_value(c, radix as int) is None,
        },
{
    let v = c as u32;
    let d = if 48 <= v && v <= 57 {
        v - 48
    } else if 97 <= v && v <= 122 {
        v - 97 + 10
    } else if 65 <= v && v <= 90 {
        v - 65 + 10
    } else {
        radix
    };
    if d < radix {
        Some(d)
    } else {
        None
    }
}

/// Digits beyond `u32::MAX` stay beyond it as more digits follow.
proof fn lemma_digits_grow(s: Seq<char>, radix: int, k: int, j: int)
    requires
        2 <= radix,
        0 <= k <= j,
        digits_value(s, radix, k) matches Some(v) && v > u32::MAX,
    ensures
        digits_value(s, radix, j) matches Some(w) ==> w > u32::MAX,
    decreases j - k,
{
    if k < j {
        lemma_digits_grow(s, radix, k, j - 1);
        if let Some(w) = digits_value(s, radix, j - 1) {
            if let Some(d) = digit_value(s[j - 1], radix) {
                assert(w * radix + d >= w) by (nonlinear_arith)
                    requires
                        w >= 0,
                        radix >= 2,
                        d >= 0,
                ;
            }
        }
    }
}

proof fn lemma_digits_nonneg(s: Seq<char>, radix: int, k: int)
    requires
        2 <= radix,
    ensures
        digits_value(s, radix, k) matches Some(v) ==> v >= 0,
    decreases k,
{
    if k > 0 {
        lemma_digits_nonneg(s, radix, k - 1);
        if let Some(v) = digits_value(s, radix, k - 1) {
            assert(v * radix >= 0) by (nonlinear_arith)
                requires
                    v >= 0,
                    radix >= 2,
            ;
        }
    }
}

/// An invalid digit makes the whole digit string invalid.
proof fn lemma_digits_invalid(s: Seq<char>, radix: int, k: int, j: int)
    requires
        0 <= k <= j,
        digits_value(s, radix, k) is None,
    ensures
        digits_value(s, radix, j) is None,
    decreases j - k,
{
    if k < j {
        lemma_digits_invalid(s, radix, k, j - 1);
    }
}

/// Parses `cs[start..]` as `u32::from_str_radix` does.
fn parse_u32_from(cs: &Vec<char>, start: usize, radix: u32) -> (r: Option<u32>)
    requires
        start <= cs@.len(),
        2 <= radix <= 36,
    ensures
        r == parse_unsigned(cs@.subrange(start as int, cs@.len() as int), radix as int),
{
    let ghost s = cs@.subrange(start as int, cs@.len() as int);
    let mut first = start;
    if cs.len() - start > 1 && cs[start] == '+' {
        first = start + 1;
    }
    let ghost d = cs@.subrange(first as int, cs@.len() as int);
    assert(d =~= if s.len() > 1 && s[0] == '+' { s.drop_first() } else { s });
    if first == cs.len() {
        return None;
    }
    let mut value: u32 = 0;
    let mut i = first;
    while i < cs.len()
        invariant
            2 <= radix <= 36,
            first < cs@.len(),
            first <= i <= cs@.len(),
            s == cs@.subrange(start as int, cs@.len() as int),
            d == cs@.subrange(first as int, cs@.len() as int),
            d == if s.len() > 1 && s[0] == '+' { s.drop_first() } else { s },
            digits_value(d, radix as int, i - first) == Some(value as int),
        decreases cs@.len() - i,
    {
        let dv = digit_of(cs[i], radix);
        assert(cs[i as int] == d[i - first]);
        match dv {
            None => {
                proof {
                    lemma_digits_invalid(d, radix as int, i - first + 1, d.len() as int);
                }
                return None;
            },
            Some(dig) => {
                proof {
                    assert(value as int * radix as int <= 0xffff_ffff * 36) by (nonlinear_arith)
                        requires
                            value <= 0xffff_ffff,
                            radix <= 36,
                    ;
                }
                if value as u64 * radix as u64 + dig as u64 > u32::MAX as u64 {
                    proof {
                        lemma_digits_grow(d, radix as int, i - first + 1, d.len() as int);
                    }
                    return None;
                }
                value = value * radix + dig;
            },
        }
        i = i + 1;
    }
    proof {
        lemma_digits_nonneg(d, radix as int, d.len() as int);
    }
    Some(value)
}

/// Parse a color argument: hexadecimal after a `0x` or `#` prefix, decimal
/// otherwise; `None` if it is not a valid `u32`.
pub fn parse_color(s: &str) -> (r: Option<u32>)
    ensures
        r == color_value(s@),
{
    let cs = chars_of(s);
    if cs.len() >= 2 && cs[0] == '0' && cs[1] == 'x' {
        parse_u32_from(&cs, 2, 16)
    } else if cs.len() >= 1 && cs[0] == '#' {
        let r = parse_u32_from(&cs, 1, 16);
        assert(cs@.subrange(1, cs@.len() as int) =~= cs@.drop_first());
        r
    } else {
        let r = parse_u32_from(&cs, 0, 10);
        assert(cs@.subrange(0, cs@.len() as int) =~= cs@);
        r
    }
}

/// The red, green and blue bytes of a `0xRRGGBB` color.
pub open spec fn rgb_of(color: u32) -> (u8, u8, u8) {
    (((color / 65536) % 256) as u8, ((color / 256) % 256) as u8, (color % 256) as u8)
}

/// Split a `0xRRGGBB` color into its red, green and blue bytes (higher bits
/// are ignored).
pub fn unpack_rgb(color: u32) -> (r: (u8, u8, u8))
    ensures
        r == rgb_of(color),
{
    let red = ((color >> 16) & 0xFF) as u8;
    let green = ((color >> 8) & 0xFF) as u8;
    let blue = (color & 0xFF) as u8;
    proof {
        assert((color >> 16) & 0xFF == (color / 65536) % 256) by (bit_vector);
        assert((color >> 8) & 0xFF == (color / 256) % 256) by (bit_vector);
        assert(color & 0xFF == color % 256) by (bit_vector);
    }
    (red, green, blue)
}

} // verus!
