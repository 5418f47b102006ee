use vstd::prelude::*;

use crate::ast::ControlRegisterError;
use crate::ast::Instr;
use crate::ast::InstrArg;
use crate::ast::InstrArgValue;
use crate::ast::Natural;
use crate::ast::ParserError;
use crate::ast::Span;
use crate::ast::StackRegisterError;
use crate::bitstring::bit_vals;
use crate::bitstring::spec_bin_slice;
use crate::bitstring::spec_hex_slice;
use crate::cells::cell_bit_len;
use crate::cells::cell_data;
use crate::cells::spec_cell_repr;
use crate::chars::digits_value;
use crate::chars::digit_val;
use crate::chars::is_bin_digit;
use crate::chars::is_digit;
use crate::chars::is_hex_digit;
use crate::chars::is_ws;
use crate::chars::lemma_digits_value_prefix;
use crate::chars::spec_digit_val;
use crate::chars::spec_is_bin_digit;
use crate::chars::spec_is_digit;
use crate::chars::spec_is_hex_digit;
use crate::chars::spec_is_ident_cont;
use crate::chars::spec_is_ws;

verus! {

/// Scanner classes: each names the set of bytes a run keeps consuming.
pub const CLASS_WS: u8 = 0;

/// Bytes of an argument-recovery run: anything but `,` and whitespace.
pub const CLASS_TO_ARG: u8 = 1;

/// Bytes of a bit-string interior: anything but `}` and whitespace.
pub const CLASS_CONTENT: u8 = 2;

/// Bytes of a parenthesis-recovery run: anything but `)` and a line feed.
pub const CLASS_TO_PAREN: u8 = 3;

/// Bytes of a brace-recovery run: anything but `}` and a line feed.
pub const CLASS_TO_BRACE: u8 = 4;

/// Bytes that may continue a mnemonic.
pub const CLASS_IDENT: u8 = 5;

/// Bytes of a block-recovery run: anything but `}`.
pub const CLASS_TO_BRACE_ANY: u8 = 6;

pub open spec fn spec_cont(b: u8, class: int) -> bool {
    if class == 0 {
        spec_is_ws(b)
    } else if class == 1 {
        b != 44 && !spec_is_ws(b)
    } else if class == 2 {
        b != 125 && !spec_is_ws(b)
    } else if class == 3 {
        b != 41 && b != 10
    } else if class == 4 {
        b != 125 && b != 10
    } else if class == 5 {
        spec_is_ident_cont(b)
    } else {
        b != 125
    }
}

/// Where a run of `class` bytes beginning at `from` ends.
pub open spec fn spec_run_end(s: Seq<u8>, from: int, class: int) -> int
    decreases s.len() - from,
{
    if 0 <= from && from < s.len() && spec_cont(s[from], class) {
        spec_run_end(s, from + 1, class)
    } else {
        from
    }
}

pub proof fn lemma_run_end(s: Seq<u8>, from: int, class: int)
    requires
        0 <= from <= s.len(),
    ensures
        from <= spec_run_end(s, from, class) <= s.len(),
        forall|j: int| from <= j < spec_run_end(s, from, class) ==> spec_cont(s[j], class),
        spec_run_end(s, from, class) < s.len() ==> !spec_cont(s[spec_run_end(s, from, class)], class),
    decreases s.len() - from,
{
    if from < s.len() && spec_cont(s[from], class) {
        lemma_run_end(s, from + 1, class);
    }
}

fn run_cont(b: u8, class: u8) -> (r: bool)
    ensures
        r == spec_cont(b, class as int),
{
    if class == 0 {
        is_ws(b)
    } else if class == 1 {
        b != 44 && !is_ws(b)
    } else if class == 2 {
        b != 125 && !is_ws(b)
    } else if class == 3 {
        b != 41 && b != 10
    } else if class == 4 {
        b != 125 && b != 10
    } else if class == 5 {
        crate::chars::is_ident_cont(b)
    } else {
        b != 125
    }
}

/// Consumes the run of `class` bytes beginning at `pos`.
fn scan_run(src: &Vec<u8>, pos: usize, class: u8) -> (r: usize)
    requires
        pos <= src@.len(),
    ensures
        r as int == spec_run_end(src@, pos as int, class as int),
        pos <= r <= src@.len(),
{
    let mut j = pos;
    while j < src.len() && run_cont(src[j], class)
        invariant
            pos <= j <= src@.len(),
            spec_run_end(src@, pos as int, class as int) == spec_run_end(src@, j as int, class as int),
        decreases src@.len() - j,
    {
        j = j + 1;
    }
    j
}

pub open spec fn spec_radix_digit(b: u8, radix: u8) -> bool {
    if radix == 16 {
        spec_is_hex_digit(b)
    } else if radix == 2 {
        spec_is_bin_digit(b)
    } else {
        spec_is_digit(b)
    }
}

/// Where a run of digits of `radix` beginning at `from` ends.
pub open spec fn spec_digits_end(s: Seq<u8>, from: int, radix: u8) -> int
    decreases s.len() - from,
{
    if 0 <= from && from < s.len() && spec_radix_digit(s[from], radix) {
        spec_digits_end(s, from + 1, radix)
    } else {
        from
    }
}

pub proof fn lemma_digits_end(s: Seq<u8>, from: int, radix: u8)
    requires
        0 <= from <= s.len(),
    ensures
        from <= spec_digits_end(s, from, radix) <= s.len(),
        forall|j: int| from <= j < spec_digits_end(s, from, radix) ==> spec_radix_digit(s[j], radix),
        spec_digits_end(s, from, radix) < s.len() ==> !spec_radix_digit(
            s[spec_digits_end(s, from, radix)],
            radix,
        ),
    decreases s.len() - from,
{
    if from < s.len() && spec_radix_digit(s[from], radix) {
        lemma_digits_end(s, from + 1, radix);
    }
}

fn radix_digit(b: u8, radix: u8) -> (r: bool)
    ensures
        r == spec_radix_digit(b, radix),
{
    if radix == 16 {
        is_hex_digit(b)
    } else if radix == 2 {
        is_bin_digit(b)
    } else {
        is_digit(b)
    }
}

/// Consumes the run of digits of `radix` beginning at `pos`.
fn scan_digits(src: &Vec<u8>, pos: usize, radix: u8) -> (r: usize)
    requires
        pos <= src@.len(),
    ensures
        r as int == spec_digits_end(src@, pos as int, radix),
        pos <= r <= src@.len(),
{
    let mut j = pos;
    while j < src.len() && radix_digit(src[j], radix)
        invariant
            pos <= j <= src@.len(),
            spec_digits_end(src@, pos as int, radix) == spec_digits_end(src@, j as int, radix),
        decreases src@.len() - j,
    {
        j = j + 1;
    }
    j
}

/// Collects the digit values of `src[start..end]`.
fn collect_vals(src: &Vec<u8>, start: usize, end: usize) -> (r: Vec<u8>)
    requires
        start <= end <= src@.len(),
    ensures
        r@ == bit_vals(src@.subrange(start as int, end as int)),
{
    let mut out: Vec<u8> = Vec::new();
    let mut j = start;
    while j < end
        invariant
            start <= j <= end <= src@.len(),
            out@ =~= bit_vals(src@.subrange(start as int, j as int)),
        decreases end - j,
    {
        out.push(digit_val(src[j]));
        proof {
            assert(out@ =~= bit_vals(src@.subrange(start as int, j + 1)));
        }
        j = j + 1;
    }
    proof {
        assert(out@ =~= bit_vals(src@.subrange(start as int, end as int)));
    }
    out
}

/// The shape of a numeric literal at `pos`, when one starts there: its
/// sign, radix, and the bounds of its digit run.
pub open spec fn spec_nat_token(s: Seq<u8>, pos: int) -> Option<(bool, u8, int, int)> {
    let neg = 0 <= pos < s.len() && s[pos] == 45;
    let st = if neg {
        pos + 1
    } else {
        pos
    };
    if st + 1 < s.len() && s[st] == 48 && s[st + 1] == 120 && spec_digits_end(s, st + 2, 16) > st
        + 2 {
        Some((neg, 16u8, st + 2, spec_digits_end(s, st + 2, 16)))
    } else if st + 1 < s.len() && s[st] == 48 && s[st + 1] == 98 && spec_digits_end(s, st + 2, 2)
        > st + 2 {
        Some((neg, 2u8, st + 2, spec_digits_end(s, st + 2, 2)))
    } else if spec_digits_end(s, st, 10) > st {
        Some((neg, 10u8, st, spec_digits_end(s, st, 10)))
    } else {
        None
    }
}

/// Parses a numeric literal: an optional `-`, then `0x` + hex digits,
/// `0b` + binary digits, or decimal digits; the digits are kept exactly.
pub fn parse_nat(src: &Vec<u8>, pos: usize) -> (r: Option<(Natural, usize)>)
    requires
        pos <= src@.len(),
    ensures
        r is Some <==> spec_nat_token(src@, pos as int) is Some,
        r matches Some(p) ==> (spec_nat_token(src@, pos as int) matches Some(t) && p.0.negative
            == t.0 && p.0.radix == t.1 && p.0.digits@ == bit_vals(src@.subrange(t.2, t.3))
            && p.1 as int == t.3 && pos < p.1 <= src@.len() && p.0.wf()),
{
    let neg = pos < src.len() && src[pos] == 45;
    let st = if neg {
        pos + 1
    } else {
        pos
    };
    if st < src.len() && st + 1 < src.len() && src[st] == 48 && src[st + 1] == 120 {
        let de = scan_digits(src, st + 2, 16);
        if de > st + 2 {
            let digits = collect_vals(src, st + 2, de);
            proof {
                lemma_digits_end(src@, st + 2, 16);
            }
            return Some((Natural { negative: neg, radix: 16, digits }, de));
        }
    }
    if st < src.len() && st + 1 < src.len() && src[st] == 48 && src[st + 1] == 98 {
        let de = scan_digits(src, st + 2, 2);
        if de > st + 2 {
            let digits = collect_vals(src, st + 2, de);
            proof {
                lemma_digits_end(src@, st + 2, 2);
            }
            return Some((Natural { negative: neg, radix: 2, digits }, de));
        }
    }
    let de = scan_digits(src, st, 10);
    if de > st {
        let digits = collect_vals(src, st, de);
        proof {
            lemma_digits_end(src@, st as int, 10);
        }
        return Some((Natural { negative: neg, radix: 10, digits }, de));
    }
    None
}

/// The decimal value of the digit run `src[start..end]`, when it stays
/// within `cap`; `None` reports that it exceeds `cap`.
fn decimal_capped(src: &Vec<u8>, start: usize, end: usize, cap: u32) -> (r: Option<u32>)
    requires
        start <= end <= src@.len(),
        cap <= 60000,
        forall|j: int| start <= j < end ==> spec_is_digit(src@[j]),
    ensures
        r matches Some(v) ==> v as int == digits_value(
            bit_vals(src@.subrange(start as int, end as int)),
            10,
        ) && v <= cap,
        r is None <==> digits_value(bit_vals(src@.subrange(start as int, end as int)), 10)
            > cap,
{
    let ghost whole = bit_vals(src@.subrange(start as int, end as int));
    proof {
        assert(forall|j: int| 0 <= j < whole.len() ==> whole[j] < 10);
    }
    let mut acc: u32 = 0;
    let mut j = start;
    while j < end
        invariant
            start <= j <= end <= src@.len(),
            cap <= 60000,
            forall|jj: int| start <= jj < end ==> spec_is_digit(src@[jj]),
            whole == bit_vals(src@.subrange(start as int, end as int)),
            acc as int == digits_value(whole.take(j - start), 10),
            acc <= cap,
        decreases end - j,
    {
        let d = digit_val(src[j]);
        proof {
            let pre = whole.take(j - start);
            let cur = whole.take(j - start + 1);
            assert(cur.drop_last() =~= pre);
            assert(cur.last() == spec_digit_val(src@[j as int]));
        }
        let next = acc * 10 + (d as u32);
        if next > cap {
            proof {
                assert(forall|jj: int| 0 <= jj < whole.len() ==> whole[jj] < 10);
                lemma_digits_value_prefix(whole, 10, j - start + 1);
            }
            return None;
        }
        acc = next;
        j = j + 1;
    }
    proof {
        assert(whole.take(end - start) =~= whole);
    }
    Some(acc)
}

/// The decimal value written after the `c` of a control register.
pub open spec fn spec_creg_value(s: Seq<u8>, pos: int) -> int {
    digits_value(bit_vals(s.subrange(pos + 1, spec_digits_end(s, pos + 1, 10))), 10)
}

/// Parses a control register argument: `c` then decimal digits, valid
/// exactly for the indices {0,1,2,3,4,5,7}; anything else recovers to an
/// `Invalid` argument after one diagnostic, consuming up to the next
/// comma or whitespace.
pub fn parse_creg(src: &Vec<u8>, pos: usize, errors: &mut Vec<ParserError>) -> (r: (InstrArg, usize))
    requires
        pos < src@.len(),
        src@[pos as int] == 99,
    ensures
        pos < r.1 <= src@.len(),
        final(errors)@.len() >= old(errors)@.len(),
        final(errors)@.take(old(errors)@.len() as int) == old(errors)@,
        ({
            let ds = pos as int + 1;
            let de = spec_digits_end(src@, ds, 10);
            let v = spec_creg_value(src@, pos as int);
            &&& (de > ds && v <= 5) ==> (r.0.value matches InstrArgValue::CReg(c) && c as int == v
                && r.1 as int == de && final(errors)@ == old(errors)@)
            &&& (de > ds && v == 7) ==> (r.0.value matches InstrArgValue::CReg(c) && c as int == v
                && r.1 as int == de && final(errors)@ == old(errors)@)
            &&& (de > ds && v <= 255 && v != 7 && v > 5) ==> (r.0.value is Invalid
                && final(errors)@.len() == old(errors)@.len() + 1
                && (final(errors)@.last() matches ParserError::InvalidControlRegister {
                    span,
                    inner,
                } && span == (Span { start: ds as usize, end: de as usize })
                    && inner == ControlRegisterError::OutOfRange(v as u8))
                && r.1 as int == spec_run_end(src@, ds, 1))
            &&& (de > ds && v > 255) ==> (r.0.value is Invalid
                && final(errors)@.len() == old(errors)@.len() + 1
                && (final(errors)@.last() matches ParserError::InvalidControlRegister {
                    span,
                    inner,
                } && span == (Span { start: ds as usize, end: de as usize })
                    && inner == ControlRegisterError::Overflow)
                && r.1 as int == spec_run_end(src@, ds, 1))
            &&& (de == ds) ==> (r.0.value is Invalid
                && final(errors)@.len() == old(errors)@.len() + 1
                && (final(errors)@.last() matches ParserError::InvalidControlRegister {
                    inner,
                    ..
                } && inner == ControlRegisterError::Malformed)
                && r.1 as int == spec_run_end(src@, ds, 1))
        }),
        r.0.span == (Span { start: pos, end: r.1 }),
{
    let n = src.len();
    let ds = pos + 1;
    let de = scan_digits(src, ds, 10);
    proof {
        lemma_digits_end(src@, ds as int, 10);
    }
    if de == ds {
        let fe = if ds < n {
            ds + 1
        } else {
            ds
        };
        errors.push(
            ParserError::InvalidControlRegister {
                span: Span { start: ds, end: fe },
                inner: ControlRegisterError::Malformed,
            },
        );
        let rp = scan_run(src, ds, CLASS_TO_ARG);
        return (
            InstrArg { span: Span { start: pos, end: rp }, value: InstrArgValue::Invalid },
            rp,
        );
    }
    let span = Span { start: ds, end: de };
    match decimal_capped(src, ds, de, 255) {
        Some(v) => {
            if v <= 5 || v == 7 {
                (
                    InstrArg {
                        span: Span { start: pos, end: de },
                        value: InstrArgValue::CReg(v as u8),
                    },
                    de,
                )
            } else {
                errors.push(
                    ParserError::InvalidControlRegister {
                        span,
                        inner: ControlRegisterError::OutOfRange(v as u8),
                    },
                );
                let rp = scan_run(src, ds, CLASS_TO_ARG);
                (
                    InstrArg { span: Span { start: pos, end: rp }, value: InstrArgValue::Invalid },
                    rp,
                )
            }
        },
        None => {
            errors.push(
                ParserError::InvalidControlRegister {
                    span,
                    inner: ControlRegisterError::Overflow,
                },
            );
            let rp = scan_run(src, ds, CLASS_TO_ARG);
            (
                InstrArg { span: Span { start: pos, end: rp }, value: InstrArgValue::Invalid },
                rp,
            )
        },
    }
}

/// Copies `src[start..end]`.
fn copy_range(src: &Vec<u8>, start: usize, end: usize) -> (r: Vec<u8>)
    requires
        start <= end <= src@.len(),
    ensures
        r@ == src@.subrange(start as int, end as int),
{
    let mut out: Vec<u8> = Vec::new();
    let mut j = start;
    while j < end
        invariant
            start <= j <= end <= src@.len(),
            out@ =~= src@.subrange(start as int, j as int),
        decreases end - j,
    {
        out.push(src[j]);
        proof {
            assert(out@ =~= src@.subrange(start as int, j + 1));
        }
        j = j + 1;
    }
    proof {
        assert(out@ =~= src@.subrange(start as int, end as int));
    }
    out
}

/// Where a parenthesis-recovery scan stops: everything up to a `)` or a
/// line feed is consumed, and a `)` is consumed too.
pub open spec fn spec_paren_recover_end(s: Seq<u8>, q: int) -> int {
    let e = spec_run_end(s, q, 3);
    if e < s.len() && s[e] == 41 {
        e + 1
    } else {
        e
    }
}

fn paren_recover(src: &Vec<u8>, q: usize) -> (r: usize)
    requires
        q <= src@.len(),
    ensures
        r as int == spec_paren_recover_end(src@, q as int),
        q <= r <= src@.len(),
{
    let e = scan_run(src, q, CLASS_TO_PAREN);
    if e < src.len() && src[e] == 41 {
        e + 1
    } else {
        e
    }
}

/// Where a brace-recovery scan stops: everything up to a `}` or a line
/// feed is consumed, and a `}` is consumed too.
pub open spec fn spec_brace_recover_end(s: Seq<u8>, q: int) -> int {
    let e = spec_run_end(s, q, 4);
    if e < s.len() && s[e] == 125 {
        e + 1
    } else {
        e
    }
}

fn brace_recover(src: &Vec<u8>, q: usize) -> (r: usize)
    requires
        q <= src@.len(),
    ensures
        r as int == spec_brace_recover_end(src@, q as int),
        q <= r <= src@.len(),
{
    let e = scan_run(src, q, CLASS_TO_BRACE);
    if e < src.len() && src[e] == 125 {
        e + 1
    } else {
        e
    }
}

/// The decimal value written after the `s` of a bare stack register.
pub open spec fn spec_sreg_bare_value(s: Seq<u8>, pos: int) -> int {
    digits_value(bit_vals(s.subrange(pos + 1, spec_digits_end(s, pos + 1, 10))), 10)
}

/// The decimal value written after the `s(-` of a parenthesized stack
/// register.
pub open spec fn spec_sreg_paren_value(s: Seq<u8>, pos: int) -> int {
    digits_value(bit_vals(s.subrange(pos + 3, spec_digits_end(s, pos + 3, 10))), 10)
}

/// Parses a stack register argument: `s` then a bare decimal index, or
/// `s(-N)` for a negative index, each within a signed 16-bit range.
/// Anything else recovers to an `Invalid` argument after one diagnostic:
/// a failed bare form consumes up to the next comma or whitespace, a
/// failed parenthesized form up to the next `)` or line break.
pub fn parse_sreg(src: &Vec<u8>, pos: usize, errors: &mut Vec<ParserError>) -> (r: (InstrArg, usize))
    requires
        pos < src@.len(),
        src@[pos as int] == 115,
    ensures
        pos < r.1 <= src@.len(),
        final(errors)@.len() >= old(errors)@.len(),
        final(errors)@.take(old(errors)@.len() as int) == old(errors)@,
        r.0.span == (Span { start: pos, end: r.1 }),
        ({
            let p1 = pos as int + 1;
            let paren = p1 < src@.len() && src@[p1] == 40;
            let q = p1 + 1;
            let de_p = spec_digits_end(src@, q + 1, 10);
            let v_p = spec_sreg_paren_value(src@, pos as int);
            let ok_p = q < src@.len() && src@[q] == 45 && de_p > q + 1 && v_p <= 32767 && de_p
                < src@.len() && src@[de_p] == 41;
            let de_b = spec_digits_end(src@, p1, 10);
            let v_b = spec_sreg_bare_value(src@, pos as int);
            &&& (paren && ok_p) ==> (r.0.value matches InstrArgValue::SReg(w) && w as int == -v_p
                && r.1 as int == de_p + 1 && final(errors)@ == old(errors)@)
            &&& (paren && !ok_p) ==> (r.0.value is Invalid && final(errors)@.len() == old(
                errors,
            )@.len() + 1 && final(errors)@.last() is InvalidStackRegister && r.1 as int
                == spec_paren_recover_end(src@, q))
            &&& (paren && !ok_p && !(q < src@.len() && src@[q] == 45 && de_p > q + 1 && v_p
                > 32767)) ==> (final(errors)@.last() matches ParserError::InvalidStackRegister {
                inner,
                ..
            } && inner == StackRegisterError::Malformed)
            &&& (paren && q < src@.len() && src@[q] == 45 && de_p > q + 1 && v_p > 32767) ==> (
                final(errors)@.last() matches ParserError::InvalidStackRegister { span, inner }
                && span == (Span { start: (q + 1) as usize, end: de_p as usize })
                && inner == StackRegisterError::Overflow)
            &&& (!paren && de_b > p1 && v_b <= 32767) ==> (r.0.value matches InstrArgValue::SReg(w)
                && w as int == v_b && r.1 as int == de_b && final(errors)@ == old(errors)@)
            &&& (!paren && de_b > p1 && v_b > 32767) ==> (r.0.value is Invalid
                && final(errors)@.len() == old(errors)@.len() + 1
                && (final(errors)@.last() matches ParserError::InvalidStackRegister { span, inner }
                    && span == (Span { start: p1 as usize, end: de_b as usize })
                    && inner == StackRegisterError::Overflow)
                && r.1 as int == spec_run_end(src@, p1, 1))
            &&& (!paren && de_b == p1) ==> (r.0.value is Invalid
                && final(errors)@.len() == old(errors)@.len() + 1
                && (final(errors)@.last() matches ParserError::InvalidStackRegister { inner, .. }
                    && inner == StackRegisterError::Malformed)
                && r.1 as int == spec_run_end(src@, p1, 1))
        }),
{
    let n = src.len();
    let p1 = pos + 1;
    if p1 < n && src[p1] == 40 {
        let q = p1 + 1;
        if q < n && src[q] == 45 {
            let de = scan_digits(src, q + 1, 10);
            proof {
                lemma_digits_end(src@, q + 1, 10);
            }
            if de > q + 1 {
                match decimal_capped(src, q + 1, de, 32767) {
                    Some(v) => {
                        if de < n && src[de] == 41 {
                            return (
                                InstrArg {
                                    span: Span { start: pos, end: de + 1 },
                                    value: InstrArgValue::SReg(-(v as i16)),
                                },
                                de + 1,
                            );
                        }
                        let fe = if de < n {
                            de + 1
                        } else {
                            de
                        };
                        errors.push(
                            ParserError::InvalidStackRegister {
                                span: Span { start: de, end: fe },
                                inner: StackRegisterError::Malformed,
                            },
                        );
                    },
                    None => {
                        errors.push(
                            ParserError::InvalidStackRegister {
                                span: Span { start: q + 1, end: de },
                                inner: StackRegisterError::Overflow,
                            },
                        );
                    },
                }
            } else {
                let fe = if q + 1 < n {
                    q + 2
                } else {
                    q + 1
                };
                errors.push(
                    ParserError::InvalidStackRegister {
                        span: Span { start: q + 1, end: fe },
                        inner: StackRegisterError::Malformed,
                    },
                );
            }
        } else {
            let fe = if q < n {
                q + 1
            } else {
                q
            };
            errors.push(
                ParserError::InvalidStackRegister {
                    span: Span { start: q, end: fe },
                    inner: StackRegisterError::Malformed,
                },
            );
        }
        let rp = paren_recover(src, q);
        return (
            InstrArg { span: Span { start: pos, end: rp }, value: InstrArgValue::Invalid },
            rp,
        );
    }
    let de = scan_digits(src, p1, 10);
    proof {
        lemma_digits_end(src@, p1 as int, 10);
    }
    if de > p1 {
        match decimal_capped(src, p1, de, 32767) {
            Some(v) => {
                return (
                    InstrArg {
                        span: Span { start: pos, end: de },
                        value: InstrArgValue::SReg(v as i16),
                    },
                    de,
                );
            },
            None => {
                errors.push(
                    ParserError::InvalidStackRegister {
                        span: Span { start: p1, end: de },
                        inner: StackRegisterError::Overflow,
                    },
                );
            },
        }
    } else {
        let fe = if p1 < n {
            p1 + 1
        } else {
            p1
        };
        errors.push(
            ParserError::InvalidStackRegister {
                span: Span { start: p1, end: fe },
                inner: StackRegisterError::Malformed,
            },
        );
    }
    let rp = scan_run(src, p1, CLASS_TO_ARG);
    (InstrArg { span: Span { start: pos, end: rp }, value: InstrArgValue::Invalid }, rp)
}

/// Whether an argument can begin at `pos`: a numeric literal, a register
/// prefix, a block opener, or a bit-string opener.
pub open spec fn spec_arg_start(s: Seq<u8>, pos: int) -> bool {
    pos < s.len() && (spec_nat_token(s, pos) is Some || s[pos] == 115 || s[pos] == 99 || s[pos]
        == 123 || ((s[pos] == 120 || s[pos] == 98) && pos + 1 < s.len() && s[pos + 1] == 123))
}

/// Parses a bit-string slice argument: `x{…}` or `b{…}`. The interior is
/// the run up to the first `}` or whitespace; a rejected interior or a
/// missing closing brace recovers to an `Invalid` argument.
pub fn parse_slice_arg(src: &Vec<u8>, pos: usize, errors: &mut Vec<ParserError>) -> (r: (
    InstrArg,
    usize,
))
    requires
        pos + 1 < src@.len(),
        src@[pos as int] == 120 || src@[pos as int] == 98,
        src@[pos as int + 1] == 123,
    ensures
        pos < r.1 <= src@.len(),
        final(errors)@.len() >= old(errors)@.len(),
        final(errors)@.take(old(errors)@.len() as int) == old(errors)@,
        r.0.span == (Span { start: pos, end: r.1 }),
        ({
            let p2 = pos as int + 2;
            let p3 = spec_run_end(src@, p2, 2);
            let closed = p3 < src@.len() && src@[p3] == 125;
            let dec = if src@[pos as int] == 120 {
                spec_hex_slice(src@.subrange(p2, p3))
            } else {
                spec_bin_slice(src@.subrange(p2, p3))
            };
            &&& ((closed && dec is Ok) <==> r.0.value is Slice)
            &&& (r.0.value matches InstrArgValue::Slice(c) ==> (dec matches Ok(pp) && cell_bit_len(
                c,
            ) == pp.1 && cell_data(c) == spec_cell_repr(pp.0, pp.1 as nat)))
            &&& (!(closed && dec is Ok) ==> r.0.value is Invalid)
            &&& final(errors)@.len() == old(errors)@.len() + (if dec is Ok {
                0int
            } else {
                1int
            }) + (if closed {
                0int
            } else {
                1int
            })
            &&& (dec matches Err(e) ==> final(errors)@[old(errors)@.len() as int] == (
            ParserError::InvalidSlice {
                span: Span { start: p2 as usize, end: p3 as usize },
                inner: e,
            }))
            &&& r.1 as int == (if closed {
                p3 + 1
            } else {
                spec_brace_recover_end(src@, p3)
            })
        }),
{
    let n = src.len();
    let p2 = pos + 2;
    let p3 = scan_run(src, p2, CLASS_CONTENT);
    let content = copy_range(src, p2, p3);
    let hex = src[pos] == 120;
    let decoded = if hex {
        crate::bitstring::parse_hex_slice(&content)
    } else {
        crate::bitstring::parse_bin_slice(&content)
    };
    let value = match decoded {
        Ok(c) => Some(c),
        Err(e) => {
            errors.push(ParserError::InvalidSlice { span: Span { start: p2, end: p3 }, inner: e });
            None
        },
    };
    if p3 < n && src[p3] == 125 {
        let value = match value {
            Some(c) => InstrArgValue::Slice(c),
            None => InstrArgValue::Invalid,
        };
        (InstrArg { span: Span { start: pos, end: p3 + 1 }, value }, p3 + 1)
    } else {
        let found = if p3 < n {
            Some(src[p3])
        } else {
            None
        };
        let fe = if p3 < n {
            p3 + 1
        } else {
            p3
        };
        errors.push(
            ParserError::expected_found(vec![Some(125u8)], found, Span { start: p3, end: fe }),
        );
        let rp = brace_recover(src, p3);
        (InstrArg { span: Span { start: pos, end: rp }, value: InstrArgValue::Invalid }, rp)
    }
}

/// A numeric literal whose radix prefix is not followed by a digit of
/// that radix: a hard error for the whole argument.
pub open spec fn spec_nat_hard_error(s: Seq<u8>, pos: int) -> bool {
    let neg = 0 <= pos < s.len() && s[pos] == 45;
    let st = if neg {
        pos + 1
    } else {
        pos
    };
    st + 1 < s.len() && s[st] == 48 && ((s[st + 1] == 120 && spec_digits_end(s, st + 2, 16) == st
        + 2) || (s[st + 1] == 98 && spec_digits_end(s, st + 2, 2) == st + 2))
}

/// Everything a parsed argument says of the text it came from. Its span
/// runs from the parse position to where parsing resumed; the variant is
/// forced by the first bytes, in the grammar's priority order; each
/// decoded variant carries exactly the value its text denotes; and a
/// block's instructions match their own text, recursively.
pub open spec fn spec_arg_matches(s: Seq<u8>, pos: int, a: InstrArg) -> bool
    decreases a,
{
    let nat_tok = spec_nat_token(s, pos);
    let hard = spec_nat_hard_error(s, pos);
    &&& a.span.start == pos
    &&& pos < a.span.end <= s.len()
    &&& (hard ==> a.value is Invalid)
    &&& ((nat_tok is Some && !hard) ==> a.value is Nat)
    &&& (s[pos] == 115 ==> (a.value is SReg || a.value is Invalid))
    &&& (s[pos] == 99 ==> (a.value is CReg || a.value is Invalid))
    &&& (s[pos] == 123 ==> a.value is Block)
    &&& (((s[pos] == 120 || s[pos] == 98) && pos + 1 < s.len() && s[pos + 1] == 123) ==> (
    a.value is Slice || a.value is Invalid))
    &&& (a.value matches InstrArgValue::Nat(n) ==> (nat_tok matches Some(t) && n.negative == t.0
        && n.radix == t.1 && n.digits@ == bit_vals(s.subrange(t.2, t.3)) && n.wf()))
    &&& (a.value matches InstrArgValue::CReg(c) ==> (s[pos] == 99 && c as int == spec_creg_value(
        s,
        pos,
    ) && (c <= 5 || c == 7)))
    &&& (a.value matches InstrArgValue::SReg(w) ==> (s[pos] == 115 && ((pos + 1 < s.len() && s[pos
        + 1] == 40) ==> w as int == -spec_sreg_paren_value(s, pos)) && (!(pos + 1 < s.len()
        && s[pos + 1] == 40) ==> w as int == spec_sreg_bare_value(s, pos))))
    &&& (a.value matches InstrArgValue::Slice(c) ==> ({
        let p3 = spec_run_end(s, pos + 2, 2);
        let dec = if s[pos] == 120 {
            spec_hex_slice(s.subrange(pos + 2, p3))
        } else {
            spec_bin_slice(s.subrange(pos + 2, p3))
        };
        (s[pos] == 120 || s[pos] == 98) && (dec matches Ok(pp) && cell_bit_len(c) == pp.1
            && cell_data(c) == spec_cell_repr(pp.0, pp.1 as nat))
    }))
    &&& (a.value is Block ==> s[pos] == 123)
    &&& (a.value matches InstrArgValue::Block(instrs) ==> forall|i: int|
        0 <= i < instrs@.len() ==> spec_instr_matches(s, #[trigger] instrs@[i]))
    &&& (a.value matches InstrArgValue::Block(instrs) ==> ({
        let w = spec_run_end(s, pos + 1, 0);
        (w < s.len() && crate::chars::spec_is_ident_start(s[w])) ==> (instrs@.len() >= 1
            && instrs@[0].span.start as int == w)
    }))
    &&& ((s[pos] == 115 && !(pos + 1 < s.len() && s[pos + 1] == 40) && spec_digits_end(
        s,
        pos + 1,
        10,
    ) > pos + 1 && spec_sreg_bare_value(s, pos) <= 32767) ==> a.value is SReg)
    &&& ((s[pos] == 115 && pos + 1 < s.len() && s[pos + 1] == 40 && pos + 2 < s.len() && s[pos + 2]
        == 45 && spec_digits_end(s, pos + 3, 10) > pos + 3 && spec_sreg_paren_value(s, pos)
        <= 32767 && spec_digits_end(s, pos + 3, 10) < s.len() && s[spec_digits_end(s, pos + 3, 10)]
        == 41) ==> a.value is SReg)
    &&& ((s[pos] == 99 && spec_digits_end(s, pos + 1, 10) > pos + 1 && (spec_creg_value(s, pos)
        <= 5 || spec_creg_value(s, pos) == 7)) ==> a.value is CReg)
    &&& (((s[pos] == 120 || s[pos] == 98) && pos + 1 < s.len() && s[pos + 1] == 123 && ({
        let p3 = spec_run_end(s, pos + 2, 2);
        let dec = if s[pos] == 120 {
            spec_hex_slice(s.subrange(pos + 2, p3))
        } else {
            spec_bin_slice(s.subrange(pos + 2, p3))
        };
        p3 < s.len() && s[p3] == 125 && dec is Ok
    })) ==> a.value is Slice)
}

/// Everything a parsed instruction says of the text it came from: its
/// span begins at its mnemonic, which is exactly the ident run there, and
/// each of its arguments matches its own text, in source order.
pub open spec fn spec_instr_matches(s: Seq<u8>, ins: Instr) -> bool
    decreases ins,
{
    &&& ins.span.start < s.len()
    &&& crate::chars::spec_is_ident_start(s[ins.span.start as int])
    &&& ins.ident@ == s.subrange(
        ins.span.start as int,
        spec_run_end(s, ins.span.start as int + 1, 5),
    )
    &&& forall|i: int|
        0 <= i < ins.args@.len() ==> spec_arg_matches(
            s,
            (#[trigger] ins.args@[i]).span.start as int,
            ins.args@[i],
        )
    &&& forall|i: int|
        0 <= i && i + 1 < ins.args@.len() ==> (#[trigger] ins.args@[i]).span.end <= ins.args@[i
            + 1].span.start
    &&& ({
        let ie = spec_run_end(s, ins.span.start as int + 1, 5);
        let ws = spec_run_end(s, ie, 0);
        &&& (spec_arg_start(s, ws) <==> ins.args@.len() >= 1)
        &&& (ins.args@.len() >= 1 ==> ins.args@[0].span.start as int == ws)
    })
}

/// Parses one argument, dispatching on its first byte in the grammar's
/// priority order: numeric literal, stack register, control register,
/// continuation block, bit-string slice. A radix prefix without digits is
/// the one hard error: it is reported with the literal's span and the
/// argument recovers to `Invalid`. `None` reports that no argument begins
/// here; nothing is consumed then.
pub fn parse_arg(src: &Vec<u8>, pos: usize, errors: &mut Vec<ParserError>) -> (r: Option<(
    InstrArg,
    usize,
)>)
    requires
        pos <= src@.len(),
    ensures
        final(errors)@.len() >= old(errors)@.len(),
        final(errors)@.take(old(errors)@.len() as int) == old(errors)@,
        r is Some <==> spec_arg_start(src@, pos as int),
        r is None ==> final(errors)@ == old(errors)@,
        r matches Some(ap) ==> (pos < ap.1 <= src@.len() && ap.1 == ap.0.span.end
            && spec_arg_matches(src@, pos as int, ap.0)),
        spec_nat_hard_error(src@, pos as int) ==> (final(errors)@.len() == old(errors)@.len() + 1
            && (final(errors)@.last() matches ParserError::InvalidInt { span } && span.start == pos
            && span.end as int == (if 0 <= pos < src@.len() && src@[pos as int] == 45 {
            pos + 3
        } else {
            pos + 2
        }))),
    decreases src@.len() - pos, 1int,
{
    let neg = pos < src.len() && src[pos] == 45;
    let st = if neg {
        pos + 1
    } else {
        pos
    };
    if st < src.len() && st + 1 < src.len() && src[st] == 48 && (src[st + 1] == 120 || src[st + 1]
        == 98) {
        let radix: u8 = if src[st + 1] == 120 {
            16
        } else {
            2
        };
        let de = scan_digits(src, st + 2, radix);
        if de == st + 2 {
            errors.push(ParserError::InvalidInt { span: Span { start: pos, end: st + 2 } });
            proof {
                lemma_run_end(src@, pos as int + 1, 1);
                lemma_digits_end(src@, st as int + 1, 10);
                assert(spec_digits_end(src@, st as int, 10) >= st + 1);
            }
            let rp = scan_run(src, pos, CLASS_TO_ARG);
            return Some(
                (InstrArg { span: Span { start: pos, end: rp }, value: InstrArgValue::Invalid }, rp),
            );
        }
    }
    match parse_nat(src, pos) {
        Some((n, p2)) => {
            return Some((InstrArg { span: Span { start: pos, end: p2 }, value: InstrArgValue::Nat(n) }, p2));
        },
        None => {},
    }
    if pos >= src.len() {
        return None;
    }
    let b = src[pos];
    if b == 115 {
        proof {
            lemma_digits_end(src@, pos as int + 1, 10);
        }
        let (a, p2) = parse_sreg(src, pos, errors);
        Some((a, p2))
    } else if b == 99 {
        proof {
            lemma_digits_end(src@, pos as int + 1, 10);
        }
        let (a, p2) = parse_creg(src, pos, errors);
        Some((a, p2))
    } else if b == 123 {
        let (instrs, p2) = parse_block(src, pos, errors);
        Some((InstrArg { span: Span { start: pos, end: p2 }, value: InstrArgValue::Block(instrs) }, p2))
    } else if (b == 120 || b == 98) && pos + 1 < src.len() && src[pos + 1] == 123 {
        let (a, p2) = parse_slice_arg(src, pos, errors);
        Some((a, p2))
    } else {
        None
    }
}

/// Parses a comma-separated argument list. A missing separator recovers
/// by consuming bytes until a comma (resuming there, with a diagnostic)
/// or a line break or the end of input (ending the list silently); a
/// separator with no argument after it ends the list before the
/// separator.
#[verifier::rlimit(80)]
pub fn parse_args(src: &Vec<u8>, pos: usize, errors: &mut Vec<ParserError>) -> (r: (
    Vec<InstrArg>,
    usize,
))
    requires
        pos <= src@.len(),
    ensures
        pos <= r.1 <= src@.len(),
        final(errors)@.len() >= old(errors)@.len(),
        final(errors)@.take(old(errors)@.len() as int) == old(errors)@,
        r.0@.len() == 0 <==> !spec_arg_start(src@, pos as int),
        r.0@.len() == 0 ==> (r.1 == pos && final(errors)@ == old(errors)@),
        r.0@.len() >= 1 ==> (r.0@[0].span.start == pos && r.1 == r.0@.last().span.end),
        forall|i: int|
            0 <= i < r.0@.len() ==> spec_arg_matches(
                src@,
                (#[trigger] r.0@[i]).span.start as int,
                r.0@[i],
            ),
        forall|i: int|
            0 <= i && i + 1 < r.0@.len() ==> (#[trigger] r.0@[i]).span.end <= r.0@[i
                + 1].span.start,
    decreases src@.len() - pos, 2int,
{
    let mut args: Vec<InstrArg> = Vec::new();
    let mut p: usize;
    match parse_arg(src, pos, errors) {
        None => {
            return (args, pos);
        },
        Some(ap) => {
            args.push(ap.0);
            p = ap.1;
            proof {
                assert(args@.len() == 1);
                assert(args@[0] == ap.0);
            }
        },
    }
    loop
        invariant
            spec_arg_start(src@, pos as int),
            pos < p <= src@.len(),
            args@.len() >= 1,
            args@[0].span.start == pos,
            p == args@.last().span.end,
            forall|i: int|
                0 <= i < args@.len() ==> spec_arg_matches(
                    src@,
                    (#[trigger] args@[i]).span.start as int,
                    args@[i],
                ),
            forall|i: int|
                0 <= i && i + 1 < args@.len() ==> (#[trigger] args@[i]).span.end <= args@[i
                    + 1].span.start,
            errors@.len() >= old(errors)@.len(),
            errors@.take(old(errors)@.len() as int) == old(errors)@,
        decreases src@.len() - p,
    {
        let mut q = p;
        let mut state: u8 = 0;
        let mut after_sep: usize = 0;
        let mut sep_at: usize = 0;
        while state == 0
            invariant
                pos < p <= q <= src@.len(),
                state == 0 || state == 1 || state == 2,
                state == 1 ==> (p < after_sep <= src@.len() && p <= sep_at < src@.len()),
                errors@.len() >= old(errors)@.len(),
                errors@.take(old(errors)@.len() as int) == old(errors)@,
            decreases
                (if state == 0 {
                    1int
                } else {
                    0int
                }),
                src@.len() - q,
        {
            let r1 = scan_run(src, q, CLASS_WS);
            if r1 < src.len() && src[r1] == 44 {
                if q != p {
                    errors.push(
                        ParserError::expected_found(
                            vec![Some(44u8)],
                            Some(src[q]),
                            Span { start: q, end: q + 1 },
                        ),
                    );
                }
                after_sep = scan_run(src, r1 + 1, CLASS_WS);
                sep_at = r1;
                state = 1;
            } else if q >= src.len() {
                state = 2;
            } else if crate::chars::is_newline(src[q]) {
                state = 2;
            } else {
                q = q + 1;
            }
        }
        if state == 2 {
            return (args, p);
        }
        match parse_arg(src, after_sep, errors) {
            None => {
                return (args, p);
            },
            Some(ap) => {
                proof {
                    assert(spec_arg_matches(src@, after_sep as int, ap.0));
                }
                args.push(ap.0);
                p = ap.1;
                proof {
                    assert(args@.last() == ap.0);
                    assert(args@[args@.len() - 2].span.end <= ap.0.span.start);
                }
            },
        }
    }
}

/// Parses one instruction: a mnemonic, whitespace, then its arguments.
pub fn parse_instr(src: &Vec<u8>, pos: usize, errors: &mut Vec<ParserError>) -> (r: (Instr, usize))
    requires
        pos < src@.len(),
        crate::chars::spec_is_ident_start(src@[pos as int]),
    ensures
        pos < r.1 <= src@.len(),
        final(errors)@.len() >= old(errors)@.len(),
        final(errors)@.take(old(errors)@.len() as int) == old(errors)@,
        r.0.ident@ == src@.subrange(pos as int, spec_run_end(src@, pos as int + 1, 5)),
        r.0.span.start == pos,
        r.0.span.end <= r.1,
        ({
            let ie = spec_run_end(src@, pos as int + 1, 5);
            let ws = spec_run_end(src@, ie, 0);
            &&& (spec_arg_start(src@, ws) <==> r.0.args@.len() >= 1)
            &&& (r.0.args@.len() >= 1 ==> r.0.args@[0].span.start as int == ws)
        }),
        forall|i: int|
            0 <= i < r.0.args@.len() ==> spec_arg_matches(
                src@,
                (#[trigger] r.0.args@[i]).span.start as int,
                r.0.args@[i],
            ),
        forall|i: int|
            0 <= i && i + 1 < r.0.args@.len() ==> (#[trigger] r.0.args@[i]).span.end
                <= r.0.args@[i + 1].span.start,
        spec_instr_matches(src@, r.0),
    decreases src@.len() - pos, 3int,
{
    let ie = scan_run(src, pos, CLASS_IDENT);
    proof {
        assert(spec_run_end(src@, pos as int, 5) == spec_run_end(src@, pos as int + 1, 5));
        lemma_run_end(src@, pos as int + 1, 5);
    }
    let ident = copy_range(src, pos, ie);
    let ws = scan_run(src, ie, CLASS_WS);
    let (args, p2) = parse_args(src, ws, errors);
    let se = if args.len() == 0 {
        ie
    } else {
        p2
    };
    (Instr { span: Span { start: pos, end: se }, ident, args }, p2)
}

/// Parses the body of a continuation block after its `{`: instructions
/// until the matching `}`. A missing `}` at the end of input closes the
/// block implicitly; extraneous content where `}` was expected is skipped
/// up to the next `}` or the end of input, its diagnostic holding the
/// union of what the instruction and the close each expected. Either way
/// one diagnostic is reported and no inner instruction is dropped.
pub fn parse_block(src: &Vec<u8>, pos: usize, errors: &mut Vec<ParserError>) -> (r: (
    Vec<Instr>,
    usize,
))
    requires
        pos < src@.len(),
        src@[pos as int] == 123,
    ensures
        pos < r.1 <= src@.len(),
        final(errors)@.len() >= old(errors)@.len(),
        final(errors)@.take(old(errors)@.len() as int) == old(errors)@,
        ({
            let w = spec_run_end(src@, pos as int + 1, 0);
            &&& (w < src@.len() && src@[w] == 125) ==> (r.0@.len() == 0 && r.1 as int == w + 1
                && final(errors)@ == old(errors)@)
            &&& (w >= src@.len()) ==> (r.0@.len() == 0 && r.1 as int == w && final(errors)@.len()
                == old(errors)@.len() + 1 && (final(errors)@.last() matches
            ParserError::ExpectedFound { expected, found, .. } && expected@ == seq![Some(125u8)]
                && found is None))
            &&& (w < src@.len() && crate::chars::spec_is_ident_start(src@[w])) ==> (r.0@.len() >= 1
                && r.0@[0].span.start as int == w && r.0@[0].ident@ == src@.subrange(
                    w,
                    spec_run_end(src@, w + 1, 5),
                ))
            &&& (w < src@.len() && src@[w] != 125 && !crate::chars::spec_is_ident_start(src@[w]))
                ==> (r.0@.len() == 0 && final(errors)@.len() == old(errors)@.len() + 1
                && (final(errors)@.last() matches ParserError::ExpectedFound {
                    expected,
                    found,
                    ..
                } && expected@ == seq![Some(125u8)] && found == Some(src@[w])))
        }),
        forall|i: int| 0 <= i < r.0@.len() ==> spec_instr_matches(src@, #[trigger] r.0@[i]),
    decreases src@.len() - pos, 0int,
{
    let n = src.len();
    let mut instrs: Vec<Instr> = Vec::new();
    let w0 = scan_run(src, pos + 1, CLASS_WS);
    if w0 >= n {
        errors.push(
            ParserError::expected_found(vec![Some(125u8)], None, Span { start: w0, end: w0 }),
        );
        return (instrs, w0);
    }
    let b0 = src[w0];
    if b0 == 125 {
        return (instrs, w0 + 1);
    }
    if !crate::chars::is_ident_start(b0) {
        let at_instr = ParserError::expected_found(
            Vec::new(),
            Some(b0),
            Span { start: w0, end: w0 + 1 },
        );
        let at_close = ParserError::expected_found(
            vec![Some(125u8)],
            Some(b0),
            Span { start: w0, end: w0 + 1 },
        );
        let merged = at_instr.merge(at_close);
        proof {
            assert(merged->ExpectedFound_expected@ =~= seq![Some(125u8)]);
        }
        errors.push(merged);
        let e = scan_run(src, w0, CLASS_TO_BRACE_ANY);
        if e < n {
            return (instrs, e + 1);
        }
        return (instrs, e);
    }
    let (first, p1) = parse_instr(src, w0, errors);
    instrs.push(first);
    let ghost first_instr = instrs@[0];
    let mut p = p1;
    loop
        invariant
            n == src@.len(),
            pos < p <= src@.len(),
            instrs@.len() >= 1,
            instrs@[0] == first_instr,
            forall|i: int| 0 <= i < instrs@.len() ==> spec_instr_matches(src@, #[trigger] instrs@[i]),
            spec_run_end(src@, pos as int + 1, 0) < src@.len(),
            crate::chars::spec_is_ident_start(src@[spec_run_end(src@, pos as int + 1, 0)]),
            first_instr.span.start as int == spec_run_end(src@, pos as int + 1, 0),
            first_instr.ident@ == src@.subrange(
                spec_run_end(src@, pos as int + 1, 0),
                spec_run_end(src@, spec_run_end(src@, pos as int + 1, 0) + 1, 5),
            ),
            errors@.len() >= old(errors)@.len(),
            errors@.take(old(errors)@.len() as int) == old(errors)@,
        decreases src@.len() - p,
    {
        let w = scan_run(src, p, CLASS_WS);
        if w >= n {
            errors.push(
                ParserError::expected_found(vec![Some(125u8)], None, Span { start: w, end: w }),
            );
            return (instrs, w);
        }
        let b = src[w];
        if b == 125 {
            return (instrs, w + 1);
        }
        if crate::chars::is_ident_start(b) {
            let (ins, p2) = parse_instr(src, w, errors);
            instrs.push(ins);
            p = p2;
        } else {
            let at_instr = ParserError::expected_found(
                Vec::new(),
                Some(b),
                Span { start: w, end: w + 1 },
            );
            let at_close = ParserError::expected_found(
                vec![Some(125u8)],
                Some(b),
                Span { start: w, end: w + 1 },
            );
            errors.push(at_instr.merge(at_close));
            let e = scan_run(src, w, CLASS_TO_BRACE_ANY);
            if e < n {
                return (instrs, e + 1);
            }
            return (instrs, e);
        }
    }
}

/// Parses a whole program: instructions separated by whitespace, until
/// the input is exhausted. The grammar is byte-oriented: only the ASCII
/// blank bytes separate tokens. The parse never aborts: content that
/// cannot begin an instruction is reported as a diagnostic and skipped
/// to the next blank, and parsing continues over the rest of the input,
/// so the result is always a best-effort program with every problem
/// accumulated in the diagnostic list.
pub fn parse(src: &Vec<u8>) -> (r: (Vec<Instr>, Vec<ParserError>))
    ensures
        src@.len() == 0 ==> (r.0@.len() == 0 && r.1@.len() == 0),
        spec_run_end(src@, 0, 0) == src@.len() ==> (r.0@.len() == 0 && r.1@.len() == 0),
        ({
            let w = spec_run_end(src@, 0, 0);
            w < src@.len() && crate::chars::spec_is_ident_start(src@[w]) ==> (r.0@.len() >= 1
                && r.0@[0].span.start as int == w && r.0@[0].ident@ == src@.subrange(
                    w,
                    spec_run_end(src@, w + 1, 5),
                ))
        }),
        ({
            let w = spec_run_end(src@, 0, 0);
            w < src@.len() && !crate::chars::spec_is_ident_start(src@[w]) ==> (r.1@.len() >= 1
                && (r.1@[0] matches ParserError::ExpectedFound { span, expected, found }
                && expected@ == Seq::<Option<u8>>::empty() && found == Some(src@[w]) && span == (
                Span { start: w as usize, end: (w + 1) as usize })))
        }),
        forall|i: int| 0 <= i < r.0@.len() ==> spec_instr_matches(src@, #[trigger] r.0@[i]),
        forall|i: int|
            0 <= i && i + 1 < r.0@.len() ==> (#[trigger] r.0@[i]).span.end <= r.0@[i
                + 1].span.start,
{
    let n = src.len();
    let mut instrs: Vec<Instr> = Vec::new();
    let mut errors: Vec<ParserError> = Vec::new();
    let w0 = scan_run(src, 0, CLASS_WS);
    if w0 >= n {
        return (instrs, errors);
    }
    let mut p: usize;
    if crate::chars::is_ident_start(src[w0]) {
        let first = parse_instr(src, w0, &mut errors);
        instrs.push(first.0);
        p = first.1;
    } else {
        errors.push(
            ParserError::expected_found(Vec::new(), Some(src[w0]), Span { start: w0, end: w0 + 1 }),
        );
        let e = scan_run(src, w0, CLASS_TO_ARG);
        p = if e > w0 {
            e
        } else {
            w0 + 1
        };
    }
    let ghost instrs0 = instrs@;
    let ghost errors0 = errors@;
    let mut done = false;
    while !done
        invariant
            n == src@.len(),
            p <= src@.len(),
            instrs@.len() >= instrs0.len(),
            instrs@.take(instrs0.len() as int) == instrs0,
            errors@.len() >= errors0.len(),
            errors@.take(errors0.len() as int) == errors0,
            forall|i: int|
                0 <= i < instrs@.len() ==> spec_instr_matches(src@, #[trigger] instrs@[i]),
            instrs@.len() >= 1 ==> instrs@.last().span.end <= p,
            forall|i: int|
                0 <= i && i + 1 < instrs@.len() ==> (#[trigger] instrs@[i]).span.end <= instrs@[i
                    + 1].span.start,
            ({
                let w = spec_run_end(src@, 0, 0);
                w < src@.len() && crate::chars::spec_is_ident_start(src@[w]) ==> (instrs0.len()
                    >= 1 && instrs0[0].span.start as int == w && instrs0[0].ident@
                    == src@.subrange(w, spec_run_end(src@, w + 1, 5)))
            }),
            ({
                let w = spec_run_end(src@, 0, 0);
                w < src@.len() && !crate::chars::spec_is_ident_start(src@[w]) ==> (errors0.len()
                    >= 1 && (errors0[0] matches ParserError::ExpectedFound {
                    span,
                    expected,
                    found,
                } && expected@ == Seq::<Option<u8>>::empty() && found == Some(src@[w]) && span == (
                Span { start: w as usize, end: (w + 1) as usize })))
            }),
        decreases
            (if done {
                0int
            } else {
                1int
            }),
            src@.len() - p,
    {
        let w = scan_run(src, p, CLASS_WS);
        if w >= n {
            done = true;
        } else if crate::chars::is_ident_start(src[w]) {
            let (ins, p2) = parse_instr(src, w, &mut errors);
            instrs.push(ins);
            p = p2;
        } else {
            errors.push(
                ParserError::expected_found(
                    Vec::new(),
                    Some(src[w]),
                    Span { start: w, end: w + 1 },
                ),
            );
            let e = scan_run(src, w, CLASS_TO_ARG);
            p = if e > w {
                e
            } else {
                w + 1
            };
        }
    }
    proof {
        if instrs0.len() >= 1 {
            assert(instrs@[0] == instrs@.take(instrs0.len() as int)[0]);
        }
        if errors0.len() >= 1 {
            assert(errors@[0] == errors@.take(errors0.len() as int)[0]);
        }
    }
    (instrs, errors)
}

} // verus!
