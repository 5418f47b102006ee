use vstd::prelude::*;

use crate::chars::digits_value;
use crate::chars::pow_int;

verus! {

/// A half-open range of byte offsets into the source text.
#[derive(Debug, Clone, Copy, PartialEq, Eq, Structural)]
pub struct Span {
    pub start: usize,
    pub end: usize,
}

/// An arbitrary-precision signed integer literal, kept as the sign, the
/// radix it was written in, and its digit values (most significant first).
#[derive(Debug, Clone, PartialEq, Eq)]
pub struct Natural {
    pub negative: bool,
    pub radix: u8,
    pub digits: Vec<u8>,
}

impl Natural {
    pub open spec fn wf(&self) -> bool {
        &&& (self.radix == 2 || self.radix == 10 || self.radix == 16)
        &&& self.digits@.len() > 0
        &&& forall|i: int| 0 <= i < self.digits@.len() ==> self.digits@[i] < self.radix
    }

    /// The magnitude this literal denotes.
    pub open spec fn magnitude(&self) -> int {
        digits_value(self.digits@, self.radix as int)
    }

    /// The signed integer this literal denotes.
    pub open spec fn value(&self) -> int {
        if self.negative {
            -self.magnitude()
        } else {
            self.magnitude()
        }
    }

    /// The denoted value, whenever the literal has at most 15 digits (such a
    /// value always fits in an `i64`).
    pub fn to_i64(&self) -> (r: Option<i64>)
        requires
            self.wf(),
        ensures
            r matches Some(v) ==> v as int == self.value(),
            self.digits@.len() <= 15 ==> r is Some,
    {
        if self.digits.len() > 15 {
            return None;
        }
        proof {
            reveal_with_fuel(pow_int, 16);
            assert(pow_int(16, 15) == 0x1000_0000_0000_0000);
        }
        let mut acc: u64 = 0;
        let mut i: usize = 0;
        while i < self.digits.len()
            invariant
                self.wf(),
                0 <= i <= self.digits@.len() <= 15,
                acc == digits_value(self.digits@.take(i as int), self.radix as int),
                acc < 0x1000_0000_0000_0000,
            decreases self.digits@.len() - i,
        {
            let d = self.digits[i];
            proof {
                reveal_with_fuel(pow_int, 16);
                assert(pow_int(16, 15) == 0x1000_0000_0000_0000);
                let pre = self.digits@.take(i as int);
                let cur = self.digits@.take(i as int + 1);
                assert(cur.drop_last() == pre);
                assert(cur.last() == self.digits@[i as int]);
                crate::chars::lemma_digits_value_bounds(cur, self.radix as int);
                assert(pow_int(self.radix as int, cur.len()) <= pow_int(16, 15)) by {
                    lemma_pow_int_le(self.radix as int, 16, cur.len(), 15);
                }
                assert((acc as int) * (self.radix as int) + (d as int) < 0x1000_0000_0000_0000)
                    by (nonlinear_arith)
                    requires
                        digits_value(cur, self.radix as int) == (acc as int) * (self.radix as int)
                            + (d as int),
                        digits_value(cur, self.radix as int) < 0x1000_0000_0000_0000,
                ;
            }
            acc = acc * (self.radix as u64) + (d as u64);
            i = i + 1;
        }
        proof {
            assert(self.digits@.take(self.digits@.len() as int) == self.digits@);
        }
        if self.negative {
            Some(-(acc as i64))
        } else {
            Some(acc as i64)
        }
    }
}

/// A monotone bound on powers: a smaller base to a smaller exponent stays
/// under a larger base to a larger exponent (bases at least 1).
pub proof fn lemma_pow_int_le(a: int, b: int, e: nat, f: nat)
    requires
        1 <= a <= b,
        e <= f,
    ensures
        pow_int(a, e) <= pow_int(b, f),
    decreases f,
{
    if f == 0 {
    } else if e == 0 {
        lemma_pow_int_le(a, b, 0, (f - 1) as nat);
        assert(pow_int(b, (f - 1) as nat) * b >= pow_int(b, (f - 1) as nat) * 1) by (nonlinear_arith)
            requires pow_int(b, (f - 1) as nat) >= 1, b >= 1,
        ;
    } else {
        lemma_pow_int_le(a, b, (e - 1) as nat, (f - 1) as nat);
        assert(pow_int(a, (e - 1) as nat) >= 1) by {
            lemma_pow_int_le(1, a, 0, (e - 1) as nat);
            assert(pow_int(1, 0) == 1);
        }
        assert(pow_int(a, (e - 1) as nat) * a <= pow_int(b, (f - 1) as nat) * b) by (nonlinear_arith)
            requires
                0 < pow_int(a, (e - 1) as nat) <= pow_int(b, (f - 1) as nat),
                0 < a <= b,
        ;
    }
}

/// An instruction: its source span, its mnemonic bytes, and its arguments.
#[derive(Debug)]
pub struct Instr {
    pub span: Span,
    pub ident: Vec<u8>,
    pub args: Vec<InstrArg>,
}

/// One argument with its source span.
#[derive(Debug)]
pub struct InstrArg {
    pub span: Span,
    pub value: InstrArgValue,
}

/// The kinds of argument the grammar admits; `Invalid` stands where a
/// malformed argument was recovered.
#[derive(Debug)]
pub enum InstrArgValue {
    Nat(Natural),
    SReg(i16),
    CReg(u8),
    Slice(everscale_types::cell::Cell),
    Block(Vec<Instr>),
    Invalid,
}

/// Why a stack register failed to decode, telling a structural failure
/// apart from a range failure.
#[derive(Debug, Clone, Copy, PartialEq, Eq, Structural)]
pub enum StackRegisterError {
    /// The content after the `s` has the wrong shape: no digits, no `-`
    /// after `(`, or an unmatched parenthesis.
    Malformed,
    /// The index does not fit in a signed 16-bit integer.
    Overflow,
}

/// Why a control register failed to decode, telling a structural failure
/// apart from a range failure.
#[derive(Debug, Clone, Copy, PartialEq, Eq, Structural)]
pub enum ControlRegisterError {
    /// No digits follow the `c`.
    Malformed,
    /// The index does not fit in an unsigned 8-bit integer.
    Overflow,
    /// The index fits in 8 bits but is not one of {0,1,2,3,4,5,7}.
    OutOfRange(u8),
}

/// Why a bit-string literal failed to decode.
#[derive(Debug, Clone, Copy, PartialEq, Eq, Structural)]
pub enum SliceError {
    /// A byte outside the ASCII range appeared in the literal.
    NonAscii,
    /// The lone half-byte digit of a hex literal is not a hex digit.
    InvalidHex(u8),
    /// A digit of the paired part of a hex literal is not a hex digit.
    InvalidHexFull,
    /// A digit of a binary literal is not `0` or `1`.
    InvalidBin(u8),
    /// The literal would exceed the maximum width of a cell.
    TooLong,
    /// The cell construction facility rejected the bits.
    CellError,
}

/// A diagnostic: what went wrong, and where.
#[derive(Debug, Clone)]
pub enum ParserError {
    ExpectedFound { span: Span, expected: Vec<Option<u8>>, found: Option<u8> },
    InvalidInt { span: Span },
    InvalidStackRegister { span: Span, inner: StackRegisterError },
    InvalidControlRegister { span: Span, inner: ControlRegisterError },
    InvalidSlice { span: Span, inner: SliceError },
}

impl ParserError {
    /// Builds the diagnostic for an unexpected byte where one of `expected`
    /// was required.
    pub fn expected_found(expected: Vec<Option<u8>>, found: Option<u8>, span: Span) -> (r:
        ParserError)
        ensures
            r == (ParserError::ExpectedFound { span, expected, found }),
    {
        ParserError::ExpectedFound { span, expected, found }
    }

    /// Unions the expected sets of two diagnostics raised at the same input
    /// position; any other combination keeps the first diagnostic.
    pub fn merge(self, other: ParserError) -> (r: ParserError)
        ensures
            (self is ExpectedFound && other is ExpectedFound) ==> (r is ExpectedFound
                && r->ExpectedFound_span == self->ExpectedFound_span
                && r->ExpectedFound_found == self->ExpectedFound_found
                && r->ExpectedFound_expected@ == self->ExpectedFound_expected@
                + other->ExpectedFound_expected@),
            !(self is ExpectedFound && other is ExpectedFound) ==> r == self,
    {
        match (self, other) {
            (
                ParserError::ExpectedFound { span, mut expected, found },
                ParserError::ExpectedFound { expected: mut expected_other, .. },
            ) => {
                expected.append(&mut expected_other);
                ParserError::ExpectedFound { span, expected, found }
            },
            (this, _) => this,
        }
    }
}

} // verus!
