use vstd::prelude::*;

use crate::ast::SliceError;
use crate::bitstring::bit_vals;
use crate::bitstring::first_non_bin;
use crate::bitstring::spec_bin_bytes;
use crate::bitstring::spec_bin_slice;
use crate::bitstring::spec_hex_pairs_bytes;
use crate::bitstring::spec_hex_slice;
use crate::chars::digits_value;
use crate::chars::spec_digit_val;
use crate::chars::spec_is_digit;
use crate::chars::spec_is_hex_digit;
use crate::parser::spec_creg_value;
use crate::parser::spec_digits_end;
use crate::parser::spec_radix_digit;
use crate::parser::spec_sreg_bare_value;

verus! {

/// The canonical decimal rendering of a non-negative integer.
pub open spec fn dec_chars_of(v: nat) -> Seq<u8>
    decreases v,
{
    if v < 10 {
        seq![(48 + v) as u8]
    } else {
        dec_chars_of(v / 10).push((48 + v % 10) as u8)
    }
}

/// The canonical rendering of a bit sequence as a binary literal body.
pub open spec fn bin_chars_of(bits: Seq<bool>) -> Seq<u8> {
    Seq::new(
        bits.len(),
        |i: int|
            if bits[i] {
                49u8
            } else {
                48u8
            },
    )
}

/// A canonical decimal rendering is a non-empty run of decimal digits
/// that denotes the rendered value again.
pub proof fn lemma_dec_chars_value(v: nat)
    ensures
        dec_chars_of(v).len() >= 1,
        forall|j: int| 0 <= j < dec_chars_of(v).len() ==> spec_is_digit(#[trigger] dec_chars_of(v)[j]),
        digits_value(bit_vals(dec_chars_of(v)), 10) == v,
    decreases v,
{
    if v < 10 {
        assert(bit_vals(dec_chars_of(v)) =~= seq![v as u8]);
        assert(seq![v as u8].drop_last() =~= Seq::<u8>::empty());
        assert(digits_value(seq![v as u8], 10) == digits_value(Seq::<u8>::empty(), 10) * 10 + v);
    } else {
        lemma_dec_chars_value(v / 10);
        let s = dec_chars_of(v / 10);
        let d = (48 + v % 10) as u8;
        assert forall|j: int| 0 <= j < dec_chars_of(v).len() implies spec_is_digit(
            #[trigger] dec_chars_of(v)[j],
        ) by {
            if j < s.len() {
                assert(dec_chars_of(v)[j] == s[j]);
            }
        }
        assert(bit_vals(s.push(d)) =~= bit_vals(s).push(spec_digit_val(d)));
        assert(bit_vals(s).push(spec_digit_val(d)).drop_last() == bit_vals(s));
        assert(digits_value(bit_vals(dec_chars_of(v)), 10) == digits_value(bit_vals(s), 10) * 10 + v
            % 10);
    }
}

/// A run that is all digits of the radix scans to the end of the input.
pub proof fn lemma_digits_end_all(s: Seq<u8>, from: int, radix: u8)
    requires
        0 <= from <= s.len(),
        forall|j: int| from <= j < s.len() ==> spec_radix_digit(s[j], radix),
    ensures
        spec_digits_end(s, from, radix) == s.len(),
    decreases s.len() - from,
{
    if from < s.len() {
        lemma_digits_end_all(s, from + 1, radix);
    }
}

/// Law: a well-formed bare stack register survives a print-parse round
/// trip. Rendering an index `v` within the signed 16-bit range as `s`
/// followed by its decimal digits yields a text that the stack-register
/// parser maps back to exactly `v`, with no diagnostic: its digit run
/// covers the whole rendering and denotes `v` again, so the parser's
/// contract yields `SReg(v)` and leaves the diagnostic list unchanged.
pub proof fn lemma_sreg_round_trip(v: nat)
    requires
        v <= 32767,
    ensures
        ({
            let s = seq![115u8] + dec_chars_of(v);
            &&& s[0] == 115
            &&& s.len() > 1
            &&& spec_digits_end(s, 1, 10) == s.len()
            &&& spec_sreg_bare_value(s, 0) == v
        }),
{
    let s = seq![115u8] + dec_chars_of(v);
    lemma_dec_chars_value(v);
    assert forall|j: int| 1 <= j < s.len() implies spec_radix_digit(s[j], 10) by {
        assert(s[j] == dec_chars_of(v)[j - 1]);
    }
    lemma_digits_end_all(s, 1, 10);
    assert(s.subrange(1, s.len() as int) =~= dec_chars_of(v));
}

/// Law: a valid control register survives a print-parse round trip.
/// Rendering an index in {0,1,2,3,4,5,7} as `c` followed by its decimal
/// digits yields a text whose digit run covers the whole rendering and
/// denotes the index again, so the control-register parser's contract
/// yields `CReg` of that index and leaves the diagnostic list unchanged.
pub proof fn lemma_creg_round_trip(v: nat)
    requires
        v <= 5 || v == 7,
    ensures
        ({
            let s = seq![99u8] + dec_chars_of(v);
            &&& s[0] == 99
            &&& s.len() > 1
            &&& spec_digits_end(s, 1, 10) == s.len()
            &&& spec_creg_value(s, 0) == v
        }),
{
    let s = seq![99u8] + dec_chars_of(v);
    lemma_dec_chars_value(v);
    assert forall|j: int| 1 <= j < s.len() implies spec_radix_digit(s[j], 10) by {
        assert(s[j] == dec_chars_of(v)[j - 1]);
    }
    lemma_digits_end_all(s, 1, 10);
    assert(s.subrange(1, s.len() as int) =~= dec_chars_of(v));
}

/// Law: a generated binary literal survives a print-parse round trip.
/// Rendering any bit sequence of at most 1023 bits as `0`/`1` digits
/// yields a literal that the binary decoder accepts without diagnostics,
/// storing exactly one bit per digit.
pub proof fn lemma_bin_slice_round_trip(bits: Seq<bool>)
    requires
        bits.len() <= 1023,
    ensures
        spec_bin_slice(bin_chars_of(bits)) == Ok::<(Seq<u8>, int), SliceError>(
            (spec_bin_bytes(bin_chars_of(bits)), bits.len() as int),
        ),
        forall|i: int|
            0 <= i < bits.len() ==> bit_vals(bin_chars_of(bits))[i] == (if bits[i] {
                1u8
            } else {
                0u8
            }),
{
    let s = bin_chars_of(bits);
    assert forall|j: int| 0 <= j < s.len() implies crate::chars::spec_is_bin_digit(s[j]) by {}
    crate::bitstring::lemma_first_non_bin(s);
    if first_non_bin(s) < s.len() {
        assert(crate::chars::spec_is_bin_digit(s[first_non_bin(s)]));
    }
}

/// The canonical two-digit-per-byte hex rendering of a byte sequence,
/// lowercase.
pub open spec fn hex_char_of(n: u8) -> u8 {
    if n < 10 {
        (48 + n) as u8
    } else {
        (87 + n) as u8
    }
}

pub open spec fn hex_chars_of(bytes: Seq<u8>) -> Seq<u8> {
    Seq::new(
        2 * bytes.len(),
        |i: int|
            if i % 2 == 0 {
                hex_char_of(bytes[i / 2] / 16)
            } else {
                hex_char_of(bytes[i / 2] % 16)
            },
    )
}

/// Law: a generated hex literal survives a print-parse round trip.
/// Rendering up to 127 bytes as two lowercase hex digits each yields a
/// literal that the hex decoder accepts without diagnostics, giving back
/// exactly those bytes with eight bits per byte.
pub proof fn lemma_hex_slice_round_trip(bytes: Seq<u8>)
    requires
        bytes.len() <= 127,
    ensures
        spec_hex_slice(hex_chars_of(bytes)) == Ok::<(Seq<u8>, int), SliceError>(
            (bytes, 8 * bytes.len() as int),
        ),
{
    let s = hex_chars_of(bytes);
    assert forall|i: int| 0 <= i < s.len() implies s[i] < 128 && spec_is_hex_digit(s[i])
        && s[i] != 95 by {
        if i % 2 == 0 {
            assert(s[i] == hex_char_of(bytes[i / 2] / 16));
        } else {
            assert(s[i] == hex_char_of(bytes[i / 2] % 16));
        }
    }
    if s.len() > 0 {
        assert(s.last() != 95);
    }
    assert(spec_hex_pairs_bytes(s) =~= bytes);
    assert(spec_hex_slice(s) == Ok::<(Seq<u8>, int), SliceError>(
        (spec_hex_pairs_bytes(s) + Seq::<u8>::empty(), 8 * bytes.len() as int),
    ));
    assert(spec_hex_pairs_bytes(s) + Seq::<u8>::empty() =~= bytes);
}

/// The canonical decimal rendering has no leading zero unless it is the
/// single digit zero.
pub proof fn lemma_dec_chars_leading(v: nat)
    requires
        v >= 10,
    ensures
        dec_chars_of(v)[0] != 48,
    decreases v,
{
    if v / 10 >= 10 {
        lemma_dec_chars_leading(v / 10);
        assert(dec_chars_of(v)[0] == dec_chars_of(v / 10)[0]);
    } else {
        assert(dec_chars_of(v)[0] == dec_chars_of(v / 10)[0]);
    }
}

/// Law: a generated decimal numeral survives a print-parse round trip.
/// The canonical rendering of any non-negative integer, of any size, is
/// recognized as one decimal numeric token covering the whole text, and
/// the digits it keeps denote the same integer again.
pub proof fn lemma_nat_round_trip(v: nat)
    ensures
        ({
            let s = dec_chars_of(v);
            crate::parser::spec_nat_token(s, 0) == Some(
                (false, 10u8, 0int, s.len() as int),
            ) && digits_value(bit_vals(s), 10) == v
        }),
{
    let s = dec_chars_of(v);
    lemma_dec_chars_value(v);
    assert forall|j: int| 0 <= j < s.len() implies spec_radix_digit(s[j], 10) by {}
    lemma_digits_end_all(s, 0, 10);
    if s.len() > 1 {
        lemma_dec_chars_leading(v);
    }
    assert(s[0] != 45);
    assert(spec_digits_end(s, 0, 10) > 0);
}

} // verus!

