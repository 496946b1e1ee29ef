use vstd::prelude::*;

verus! {

/// The characters of a string, in order.
pub fn chars_of(s: &str) -> (r: Vec<char>)
    ensures
        r@ == s@,
{
    let mut out: Vec<char> = Vec::new();
    for c in it: s.chars()
        invariant
            out@.len() == it.index(),
            forall|i: int| 0 <= i < out@.len() ==> #[trigger] out@[i] == it.seq()[i],
    {
        out.push(c);
    }
    assert(out@ =~= s@);
    out
}

/// The string is exactly the given characters.
pub fn str_equals(s: &str, lit: &[char]) -> (r: bool)
    ensures
        r == (s@ == lit@),
{
    let cs = chars_of(s);
    if cs.len() != lit.len() {
        return false;
    }
    let mut i: usize = 0;
    while i < cs.len()
        invariant
            cs@ == s@,
            cs@.len() == lit@.len(),
            i <= cs@.len(),
            forall|k: int| 0 <= k < i ==> cs@[k] == lit@[k],
        decreases cs@.len() - i,
    {
        if cs[i] != lit[i] {
            return false;
        }
        i = i + 1;
    }
    assert(cs@ =~= lit@);
    true
}

/// The decimal digits of `n`, most significant first and without leading
/// zeros (`"0"` for zero): what `Display` writes for an unsigned integer.
pub open spec fn decimal_text(n: nat) -> Seq<char>
    decreases n,
{
    let digit = (48 + n % 10) as char;
    if n < 10 {
        seq![digit]
    } else {
        decimal_text(n / 10).push(digit)
    }
}

/// Appends a character to a string (std's `String::push`).
#[verifier::external_body]
fn string_push(s: &mut String, c: char)
    ensures
        final(s)@ == old(s)@.push(c),
{
    s.push(c);
}

/// Appends a string slice to a string (std's `String::push_str`).
#[verifier::external_body]
fn string_push_str(s: &mut String, t: &str)
    ensures
        final(s)@ == old(s)@ + t@,
{
    s.push_str(t);
}

/// Appends the decimal digits of `n` to `out`.
fn push_decimal(out: &mut String, n: u64)
    ensures
        final(out)@ == old(out)@ + decimal_text(n as nat),
    decreases n,
{
    let ghost before = out@;
    if n >= 10 {
        push_decimal(out, n / 10);
    }
    let digit = ((n % 10) as u8 + 48) as char;
    assert(digit == (48 + (n as nat) % 10) as char);
    string_push(out, digit);
    if n >= 10 {
        assert(out@ =~= before + decimal_text(n as nat));
    } else {
        assert(out@ =~= before + decimal_text(n as nat));
    }
}

/// The message for an unknown pixel format name.
pub open spec fn invalid_pixel_format_text(name: Seq<char>) -> Seq<char> {
    "Invalid pixel format: "@ + name
}

/// The message for an unknown pixel format name.
pub(crate) fn invalid_pixel_format_message(name: &str) -> (m: String)
    ensures
        m@ == invalid_pixel_format_text(name@),
{
    let mut m = "Invalid pixel format: ".to_owned();
    string_push_str(&mut m, name);
    m
}

/// The message for a baseline below the glyph box.
pub open spec fn baseline_below_box_text(baseline: u16, height: u16) -> Seq<char> {
    "Baseline "@ + decimal_text(baseline as nat) + " is below the glyph box (height "@
        + decimal_text(height as nat) + ")"@
}

/// The message for a baseline below the glyph box.
pub(crate) fn baseline_below_box_message(baseline: u16, height: u16) -> (m: String)
    ensures
        m@ == baseline_below_box_text(baseline, height),
{
    let mut m = "Baseline ".to_owned();
    push_decimal(&mut m, baseline as u64);
    string_push_str(&mut m, " is below the glyph box (height ");
    push_decimal(&mut m, height as u64);
    string_push_str(&mut m, ")");
    m
}

/// The message for a pixel buffer of the wrong length.
pub open spec fn pixel_length_mismatch_text(got: usize, expected: usize) -> Seq<char> {
    "Pixel data length mismatch: got "@ + decimal_text(got as nat) + ", expected "@
        + decimal_text(expected as nat)
}

/// The message for a pixel buffer of the wrong length.
pub(crate) fn pixel_length_mismatch_message(got: usize, expected: usize) -> (m: String)
    ensures
        m@ == pixel_length_mismatch_text(got, expected),
{
    let mut m = "Pixel data length mismatch: got ".to_owned();
    push_decimal(&mut m, got as u64);
    string_push_str(&mut m, ", expected ");
    push_decimal(&mut m, expected as u64);
    m
}

/// The message when `--chars` and the atlas disagree on the number of
/// characters.
pub open spec fn char_count_mismatch_text(chars: usize, regions: usize) -> Seq<char> {
    "Character count mismatch: --chars has "@ + decimal_text(chars as nat) + " chars but "@
        + decimal_text(regions as nat) + " regions detected"@
}

/// The message when `--chars` and the atlas disagree on the number of
/// characters.
pub(crate) fn char_count_mismatch_message(chars: usize, regions: usize) -> (m: String)
    ensures
        m@ == char_count_mismatch_text(chars, regions),
{
    let mut m = "Character count mismatch: --chars has ".to_owned();
    push_decimal(&mut m, chars as u64);
    string_push_str(&mut m, " chars but ");
    push_decimal(&mut m, regions as u64);
    string_push_str(&mut m, " regions detected");
    m
}

} // verus!
