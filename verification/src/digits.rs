//! Decimal and hexadecimal digit strings.
//!
//! Decimal rendering is used for the formatted quantile values of the query
//! results; fixed-width hexadecimal rendering and parsing carry the sketch
//! snapshots through their string serialization.

use vstd::prelude::*;
use vstd::string::StringExecFns;

verus! {

/// The decimal digit character for `d` (meaningful for `0 <= d < 10`).
pub open spec fn dec_char(d: int) -> char {
    if d == 0 {
        '0'
    } else if d == 1 {
        '1'
    } else if d == 2 {
        '2'
    } else if d == 3 {
        '3'
    } else if d == 4 {
        '4'
    } else if d == 5 {
        '5'
    } else if d == 6 {
        '6'
    } else if d == 7 {
        '7'
    } else if d == 8 {
        '8'
    } else {
        '9'
    }
}

/// Canonical decimal rendering of `n`, most significant digit first.
pub open spec fn dec_of(n: nat) -> Seq<char>
    decreases n,
{
    if n < 10 {
        seq![dec_char(n as int)]
    } else {
        dec_of(n / 10).push(dec_char((n % 10) as int))
    }
}

/// Fixed-width decimal rendering of `n` (low `w` digits, zero padded).
pub open spec fn dec_fixed(n: nat, w: nat) -> Seq<char>
    decreases w,
{
    if w == 0 {
        Seq::empty()
    } else {
        dec_fixed(n / 10, (w - 1) as nat).push(dec_char((n % 10) as int))
    }
}

/// The hexadecimal digit character for `d` (meaningful for `0 <= d < 16`).
pub open spec fn hex_char(d: int) -> char {
    if d < 10 {
        dec_char(d)
    } else if d == 10 {
        'a'
    } else if d == 11 {
        'b'
    } else if d == 12 {
        'c'
    } else if d == 13 {
        'd'
    } else if d == 14 {
        'e'
    } else {
        'f'
    }
}

/// Numeric value of the character with scalar value `x`; 16 marks a
/// character that is no hexadecimal digit.
pub open spec fn hex_val_of(x: int) -> int {
    if 48 <= x <= 57 {
        x - 48
    } else if 97 <= x <= 102 {
        x - 87
    } else {
        16
    }
}

/// Numeric value of a hexadecimal digit character (16 for any other one).
pub open spec fn hex_val(c: char) -> int {
    hex_val_of(c as int)
}

pub open spec fn is_hex_char(c: char) -> bool {
    hex_val(c) < 16
}

/// Fixed-width hexadecimal rendering of `v` (low `w` digits, zero padded).
pub open spec fn hex_of(v: nat, w: nat) -> Seq<char>
    decreases w,
{
    if w == 0 {
        Seq::empty()
    } else {
        hex_of(v / 16, (w - 1) as nat).push(hex_char((v % 16) as int))
    }
}

/// Value of a sequence of hexadecimal digit characters.
pub open spec fn hex_parse(s: Seq<char>) -> int
    decreases s.len(),
{
    if s.len() == 0 {
        0
    } else {
        hex_parse(s.drop_last()) * 16 + hex_val(s.last())
    }
}

pub open spec fn all_hex(s: Seq<char>) -> bool {
    forall|i: int| 0 <= i < s.len() ==> is_hex_char(#[trigger] s[i])
}

/// 16 to the `w`.
pub open spec fn pow16(w: nat) -> nat
    decreases w,
{
    if w == 0 {
        1
    } else {
        16 * pow16((w - 1) as nat)
    }
}

/// A fixed-width hexadecimal rendering parses back to the rendered value.
pub proof fn lemma_hex_round_trip(v: nat, w: nat)
    requires
        v < pow16(w),
    ensures
        hex_of(v, w).len() == w,
        all_hex(hex_of(v, w)),
        hex_parse(hex_of(v, w)) == v,
    decreases w,
{
    if w == 0 {
        assert(pow16(0) == 1);
    } else {
        let hi = v / 16;
        let lo = v % 16;
        assert(hi < pow16((w - 1) as nat)) by {
            vstd::arithmetic::div_mod::lemma_fundamental_div_mod(v as int, 16);
        }
        lemma_hex_round_trip(hi, (w - 1) as nat);
        let s = hex_of(v, w);
        assert(s.drop_last() =~= hex_of(hi, (w - 1) as nat));
        assert(hex_val(hex_char(lo as int)) == lo);
        assert(hex_parse(s) == hex_parse(s.drop_last()) * 16 + hex_val(s.last()));
        vstd::arithmetic::div_mod::lemma_fundamental_div_mod(v as int, 16);
        assert forall|i: int| 0 <= i < s.len() implies is_hex_char(#[trigger] s[i]) by {
            if i < w - 1 {
                assert(s[i] == hex_of(hi, (w - 1) as nat)[i]);
            } else {
                assert(s[i] == hex_char(lo as int));
            }
        }
    }
}

/// `pow16(16)` is one more than `u64::MAX`, so every `u64` value fits in
/// sixteen hexadecimal digits.
pub proof fn lemma_pow16_16()
    ensures
        pow16(16) == 0x1_0000_0000_0000_0000,
{
    reveal_with_fuel(pow16, 17);
}

pub proof fn lemma_pow16_increases(a: nat, b: nat)
    requires
        a <= b,
    ensures
        pow16(a) <= pow16(b),
        pow16(a) >= 1,
    decreases b,
{
    if b > 0 {
        if a == b {
            lemma_pow16_increases((a - 1) as nat, (b - 1) as nat);
        } else {
            lemma_pow16_increases(a, (b - 1) as nat);
        }
    }
}

/// A one-character string slice holding the decimal digit `d`.
fn dec_digit_str(d: u64) -> (r: &'static str)
    requires
        d < 10,
    ensures
        r@ =~= seq![dec_char(d as int)],
{
    proof {
        reveal_strlit("0");
        reveal_strlit("1");
        reveal_strlit("2");
        reveal_strlit("3");
        reveal_strlit("4");
        reveal_strlit("5");
        reveal_strlit("6");
        reveal_strlit("7");
        reveal_strlit("8");
        reveal_strlit("9");
    }
    match d {
        0 => "0",
        1 => "1",
        2 => "2",
        3 => "3",
        4 => "4",
        5 => "5",
        6 => "6",
        7 => "7",
        8 => "8",
        _ => "9",
    }
}

/// A one-character string slice holding the hexadecimal digit `d`.
fn hex_digit_str(d: u64) -> (r: &'static str)
    requires
        d < 16,
    ensures
        r@ =~= seq![hex_char(d as int)],
{
    proof {
        reveal_strlit("a");
        reveal_strlit("b");
        reveal_strlit("c");
        reveal_strlit("d");
        reveal_strlit("e");
        reveal_strlit("f");
    }
    if d < 10 {
        dec_digit_str(d)
    } else {
        match d {
            10 => "a",
            11 => "b",
            12 => "c",
            13 => "d",
            14 => "e",
            _ => "f",
        }
    }
}

/// Canonical decimal rendering of `n`.
pub fn u64_to_dec(n: u64) -> (r: String)
    ensures
        r@ == dec_of(n as nat),
    decreases n,
{
    if n < 10 {
        let s = dec_digit_str(n);
        let r = s.to_owned();
        assert(r@ =~= dec_of(n as nat));
        r
    } else {
        let mut r = u64_to_dec(n / 10);
        r.append(dec_digit_str(n % 10));
        assert(r@ =~= dec_of(n as nat));
        r
    }
}

/// Appends the fixed-width decimal rendering of `n` to `out`.
pub fn push_dec_fixed(out: &mut String, n: u64, w: usize)
    ensures
        final(out)@ == old(out)@ + dec_fixed(n as nat, w as nat),
    decreases w,
{
    if w == 0 {
        assert(final(out)@ =~= old(out)@ + dec_fixed(n as nat, 0));
    } else {
        push_dec_fixed(out, n / 10, w - 1);
        out.append(dec_digit_str(n % 10));
        assert(final(out)@ =~= old(out)@ + dec_fixed(n as nat, w as nat));
    }
}

/// Appends the sixteen-digit hexadecimal rendering of `v` to `out`.
pub fn push_hex16(out: &mut String, v: u64)
    ensures
        final(out)@ == old(out)@ + hex_of(v as nat, 16),
{
    push_hex_fixed(out, v, 16);
}

fn push_hex_fixed(out: &mut String, v: u64, w: usize)
    ensures
        final(out)@ == old(out)@ + hex_of(v as nat, w as nat),
    decreases w,
{
    if w == 0 {
        assert(final(out)@ =~= old(out)@ + hex_of(v as nat, 0));
    } else {
        push_hex_fixed(out, v / 16, w - 1);
        out.append(hex_digit_str(v % 16));
        assert(final(out)@ =~= old(out)@ + hex_of(v as nat, w as nat));
    }
}

} // verus!
