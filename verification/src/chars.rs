use vstd::prelude::*;

verus! {

/// Whitespace bytes skipped between tokens: space, tab, and the ASCII
/// line-break family (LF, VT, FF, CR). The grammar is byte-oriented and
/// assumes ASCII blanks: a byte of a non-ASCII space never separates
/// tokens, it reads as ordinary content.
pub open spec fn spec_is_ws(b: u8) -> bool {
    b == 32 || b == 9 || b == 10 || b == 11 || b == 12 || b == 13
}

/// Bytes that terminate an argument list when scanning for a separator.
pub open spec fn spec_is_newline(b: u8) -> bool {
    b == 10 || b == 11 || b == 12 || b == 13
}

pub open spec fn spec_is_digit(b: u8) -> bool {
    48 <= b && b <= 57
}

pub open spec fn spec_is_hex_digit(b: u8) -> bool {
    spec_is_digit(b) || (65 <= b && b <= 70) || (97 <= b && b <= 102)
}

pub open spec fn spec_is_bin_digit(b: u8) -> bool {
    b == 48 || b == 49
}

/// Numeric value of a digit byte; hex letters cover 10..=15.
pub open spec fn spec_digit_val(b: u8) -> u8 {
    if 48 <= b && b <= 57 {
        (b - 48) as u8
    } else if 65 <= b && b <= 70 {
        (b - 55) as u8
    } else if 97 <= b && b <= 102 {
        (b - 87) as u8
    } else {
        0
    }
}

/// A byte that may start a mnemonic: an uppercase letter, a digit, `#` or `_`.
pub open spec fn spec_is_ident_start(b: u8) -> bool {
    (65 <= b && b <= 90) || spec_is_digit(b) || b == 35 || b == 95
}

/// A byte that may continue a mnemonic: the start set extended with `:`.
pub open spec fn spec_is_ident_cont(b: u8) -> bool {
    spec_is_ident_start(b) || b == 58
}

/// The integer denoted by a sequence of digit values in the given radix,
/// most significant digit first.
pub open spec fn digits_value(s: Seq<u8>, radix: int) -> int
    decreases s.len(),
{
    if s.len() == 0 {
        0
    } else {
        digits_value(s.drop_last(), radix) * radix + s.last()
    }
}

/// A digit-value sequence in a radix at least 1 denotes a non-negative
/// integer below radix^len.
pub proof fn lemma_digits_value_bounds(s: Seq<u8>, radix: int)
    requires
        radix >= 1,
        forall|i: int| 0 <= i < s.len() ==> s[i] < radix,
    ensures
        0 <= digits_value(s, radix),
        digits_value(s, radix) < pow_int(radix, s.len()),
    decreases s.len(),
{
    if s.len() == 0 {
    } else {
        lemma_digits_value_bounds(s.drop_last(), radix);
        let v = digits_value(s.drop_last(), radix);
        let p = pow_int(radix, (s.len() - 1) as nat);
        assert(v <= p - 1);
        assert(v * radix <= (p - 1) * radix) by (nonlinear_arith)
            requires v <= p - 1, radix >= 1,
        ;
        assert((p - 1) * radix + radix == p * radix) by (nonlinear_arith);
    }
}

/// Appending digits never decreases the denoted value.
pub proof fn lemma_digits_value_prefix(s: Seq<u8>, radix: int, i: int)
    requires
        radix >= 1,
        0 <= i <= s.len(),
        forall|j: int| 0 <= j < s.len() ==> s[j] < radix,
    ensures
        digits_value(s.take(i), radix) <= digits_value(s, radix),
    decreases s.len() - i,
{
    if i == s.len() {
        assert(s.take(i) == s);
    } else {
        lemma_digits_value_prefix(s, radix, i + 1);
        let t = s.take(i + 1);
        assert(t.drop_last() == s.take(i));
        lemma_digits_value_bounds(s.take(i), radix);
        assert(digits_value(t.drop_last(), radix) * radix >= digits_value(t.drop_last(), radix) * 1)
            by (nonlinear_arith)
            requires radix >= 1, digits_value(t.drop_last(), radix) >= 0,
        ;
    }
}

pub open spec fn pow_int(b: int, e: nat) -> int
    decreases e,
{
    if e == 0 {
        1
    } else {
        pow_int(b, (e - 1) as nat) * b
    }
}

/// Powers of one base multiply by adding exponents.
pub proof fn lemma_pow_int_add(b: int, e: nat, f: nat)
    ensures
        pow_int(b, e) * pow_int(b, f) == pow_int(b, (e + f) as nat),
    decreases f,
{
    if f == 0 {
        assert(pow_int(b, f) == 1);
    } else {
        lemma_pow_int_add(b, e, (f - 1) as nat);
        assert(pow_int(b, e) * (pow_int(b, (f - 1) as nat) * b) == (pow_int(b, e) * pow_int(
            b,
            (f - 1) as nat,
        )) * b) by (nonlinear_arith);
    }
}

pub fn is_ws(b: u8) -> (r: bool)
    ensures
        r == spec_is_ws(b),
{
    b == 32 || b == 9 || b == 10 || b == 11 || b == 12 || b == 13
}

pub fn is_newline(b: u8) -> (r: bool)
    ensures
        r == spec_is_newline(b),
{
    b == 10 || b == 11 || b == 12 || b == 13
}

pub fn is_digit(b: u8) -> (r: bool)
    ensures
        r == spec_is_digit(b),
{
    48 <= b && b <= 57
}

pub fn is_hex_digit(b: u8) -> (r: bool)
    ensures
        r == spec_is_hex_digit(b),
{
    (48 <= b && b <= 57) || (65 <= b && b <= 70) || (97 <= b && b <= 102)
}

pub fn is_bin_digit(b: u8) -> (r: bool)
    ensures
        r == spec_is_bin_digit(b),
{
    b == 48 || b == 49
}

pub fn digit_val(b: u8) -> (r: u8)
    ensures
        r == spec_digit_val(b),
{
    if 48 <= b && b <= 57 {
        b - 48
    } else if 65 <= b && b <= 70 {
        b - 55
    } else if 97 <= b && b <= 102 {
        b - 87
    } else {
        0
    }
}

pub fn is_ident_start(b: u8) -> (r: bool)
    ensures
        r == spec_is_ident_start(b),
{
    (65 <= b && b <= 90) || (48 <= b && b <= 57) || b == 35 || b == 95
}

pub fn is_ident_cont(b: u8) -> (r: bool)
    ensures
        r == spec_is_ident_cont(b),
{
    is_ident_start(b) || b == 58
}

} // verus!
