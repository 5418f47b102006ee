use vstd::prelude::*;

use crate::ast::SliceError;
use crate::cells::build_cell;
use crate::cells::cell_bit_len;
use crate::cells::cell_data;
use crate::cells::hex_decode;
use crate::cells::spec_cell_repr;
use crate::chars::digits_value;
use crate::chars::digit_val;
use crate::chars::is_bin_digit;
use crate::chars::is_hex_digit;
use crate::chars::pow_int;
use crate::chars::spec_digit_val;
use crate::chars::spec_is_bin_digit;
use crate::chars::spec_is_hex_digit;
use everscale_types::cell::Cell;

verus! {

pub open spec fn all_ascii(s: Seq<u8>) -> bool {
    forall|i: int| 0 <= i < s.len() ==> s[i] < 128
}

pub open spec fn all_hex(s: Seq<u8>) -> bool {
    forall|i: int| 0 <= i < s.len() ==> spec_is_hex_digit(s[i])
}

/// The bytes an even-length run of hex digits denotes, two digits each.
pub open spec fn spec_hex_pairs_bytes(s: Seq<u8>) -> Seq<u8> {
    Seq::new(
        s.len() / 2,
        |i: int| ((spec_digit_val(s[2 * i]) as int) * 16 + spec_digit_val(s[2 * i + 1]) as int) as u8,
    )
}

/// How many low bits of a byte are zero; 8 for a zero byte.
pub open spec fn tz8(b: u8) -> nat
    decreases b,
{
    if b == 0 {
        8
    } else if b % 2 == 1 {
        0
    } else {
        1 + tz8(b / 2)
    }
}

/// The exact bit length a completion tag encodes: drop trailing zero bytes,
/// then in the last non-zero byte drop its trailing zero bits and the one
/// set tag bit above them; all-zero bytes encode zero bits.
pub open spec fn spec_tag_bits(bytes: Seq<u8>) -> int
    decreases bytes.len(),
{
    if bytes.len() == 0 {
        0
    } else if bytes.last() == 0 {
        spec_tag_bits(bytes.drop_last())
    } else {
        8 * bytes.len() - 1 - tz8(bytes.last())
    }
}

/// What a hex bit-string literal denotes: either the raw bytes together
/// with the stored bit count, or the diagnostic its rejection carries.
pub open spec fn spec_hex_slice(s: Seq<u8>) -> Result<(Seq<u8>, int), SliceError> {
    if !all_ascii(s) {
        Err(SliceError::NonAscii)
    } else {
        let tag = s.len() > 0 && s.last() == 95;
        let body = if tag {
            s.drop_last()
        } else {
            s
        };
        if body.len() % 2 == 1 && !spec_is_hex_digit(body.last()) {
            Err(SliceError::InvalidHex(body.last()))
        } else {
            let pairs = if body.len() % 2 == 1 {
                body.drop_last()
            } else {
                body
            };
            let nbytes = pairs.len() / 2 + if body.len() % 2 == 1 {
                1int
            } else {
                0int
            };
            if nbytes > 128 {
                Err(SliceError::TooLong)
            } else if !all_hex(pairs) {
                Err(SliceError::InvalidHexFull)
            } else {
                let bytes = spec_hex_pairs_bytes(pairs) + if body.len() % 2 == 1 {
                    seq![((spec_digit_val(body.last()) as int) * 16) as u8]
                } else {
                    Seq::<u8>::empty()
                };
                let bits = if tag {
                    spec_tag_bits(bytes)
                } else {
                    8 * (pairs.len() / 2) + if body.len() % 2 == 1 {
                        4int
                    } else {
                        0int
                    }
                };
                if bits > 1023 {
                    Err(SliceError::CellError)
                } else {
                    Ok((bytes, bits))
                }
            }
        }
    }
}

/// Index of the first byte that is not a binary digit, or the length.
pub open spec fn first_non_bin(s: Seq<u8>) -> int
    decreases s.len(),
{
    if s.len() == 0 {
        0
    } else if !spec_is_bin_digit(s[0]) {
        0
    } else {
        1 + first_non_bin(s.drop_first())
    }
}

/// The digit values of a run of digit bytes, one each.
pub open spec fn bit_vals(s: Seq<u8>) -> Seq<u8> {
    Seq::new(s.len(), |j: int| spec_digit_val(s[j]))
}

/// The packed bytes of a run of binary digits: each digit one bit, most
/// significant bit first, the last byte padded low with zeros.
pub open spec fn spec_bin_chunk(s: Seq<u8>, i: int) -> u8 {
    let end = if 8 * i + 8 <= s.len() {
        8 * i + 8
    } else {
        s.len() as int
    };
    let chunk = bit_vals(s.subrange(8 * i, end));
    (digits_value(chunk, 2) * pow_int(2, (8 - chunk.len()) as nat)) as u8
}

pub open spec fn spec_bin_bytes(s: Seq<u8>) -> Seq<u8> {
    Seq::new((s.len() + 7) / 8, |i: int| spec_bin_chunk(s, i))
}

/// What a binary bit-string literal denotes: the packed bytes and the bit
/// count (one per digit), or the diagnostic its rejection carries.
pub open spec fn spec_bin_slice(s: Seq<u8>) -> Result<(Seq<u8>, int), SliceError> {
    let k = first_non_bin(s);
    if k < s.len() && k <= 1024 {
        Err(SliceError::InvalidBin(s[k]))
    } else if s.len() > 1024 {
        Err(SliceError::TooLong)
    } else if s.len() > 1023 {
        Err(SliceError::CellError)
    } else {
        Ok((spec_bin_bytes(s), s.len() as int))
    }
}

pub proof fn lemma_tz8_pow_le(b: u8)
    requires
        b != 0,
    ensures
        pow_int(2, tz8(b)) <= b,
    decreases b,
{
    if b % 2 == 1 {
    } else {
        lemma_tz8_pow_le(b / 2);
    }
}

pub proof fn lemma_tz8_le(b: u8)
    requires
        b != 0,
    ensures
        tz8(b) <= 7,
{
    lemma_tz8_pow_le(b);
    if tz8(b) >= 8 {
        crate::ast::lemma_pow_int_le(2, 2, 8, tz8(b));
        assert(pow_int(2, 8) == 256) by {
            reveal_with_fuel(pow_int, 9);
        }
    }
}

pub proof fn lemma_tag_bits_bounds(bytes: Seq<u8>)
    ensures
        0 <= spec_tag_bits(bytes) <= 8 * bytes.len(),
    decreases bytes.len(),
{
    if bytes.len() == 0 {
    } else if bytes.last() == 0 {
        lemma_tag_bits_bounds(bytes.drop_last());
    } else {
        lemma_tz8_le(bytes.last());
    }
}

pub proof fn lemma_first_non_bin(s: Seq<u8>)
    ensures
        0 <= first_non_bin(s) <= s.len(),
        forall|j: int| 0 <= j < first_non_bin(s) ==> spec_is_bin_digit(s[j]),
        first_non_bin(s) < s.len() ==> !spec_is_bin_digit(s[first_non_bin(s)]),
    decreases s.len(),
{
    if s.len() == 0 {
    } else if !spec_is_bin_digit(s[0]) {
    } else {
        lemma_first_non_bin(s.drop_first());
        assert forall|j: int| 0 <= j < first_non_bin(s) implies spec_is_bin_digit(s[j]) by {
            if j > 0 {
                assert(s.drop_first()[j - 1] == s[j]);
            }
        }
        if first_non_bin(s) < s.len() {
            assert(s.drop_first()[first_non_bin(s) - 1] == s[first_non_bin(s)]);
        }
    }
}

/// How many low bits of a byte are zero; 8 for a zero byte.
fn trailing_zeros_u8(b: u8) -> (r: u8)
    ensures
        r as nat == tz8(b),
{
    if b == 0 {
        return 8;
    }
    let mut x = b;
    let mut c: u8 = 0;
    proof {
        lemma_tz8_le(b);
    }
    while x % 2 == 0
        invariant
            x != 0,
            tz8(b) == c + tz8(x),
            tz8(b) <= 7,
        decreases x,
    {
        x = x / 2;
        c = c + 1;
    }
    c
}

fn pow2_u8(e: u8) -> (r: u8)
    requires
        e <= 7,
    ensures
        r as int == pow_int(2, e as nat),
{
    proof {
        reveal_with_fuel(pow_int, 9);
    }
    if e == 0 {
        1
    } else if e == 1 {
        2
    } else if e == 2 {
        4
    } else if e == 3 {
        8
    } else if e == 4 {
        16
    } else if e == 5 {
        32
    } else if e == 6 {
        64
    } else {
        128
    }
}

/// Decodes the interior of an `x{…}` literal into a cell, exactly as
/// `spec_hex_slice` describes, or reports why it is rejected.
#[verifier::rlimit(40)]
pub fn parse_hex_slice(content: &Vec<u8>) -> (r: Result<Cell, SliceError>)
    ensures
        r matches Err(e) ==> spec_hex_slice(content@) == Err::<(Seq<u8>, int), SliceError>(e),
        r matches Ok(c) ==> (spec_hex_slice(content@) matches Ok(p) && cell_bit_len(c) == p.1
            && cell_data(c) == spec_cell_repr(p.0, p.1 as nat)),
{
    let n = content.len();
    let mut i: usize = 0;
    while i < n
        invariant
            n == content@.len(),
            0 <= i <= n,
            forall|j: int| 0 <= j < i ==> content@[j] < 128,
        decreases n - i,
    {
        if content[i] >= 128 {
            return Err(SliceError::NonAscii);
        }
        i = i + 1;
    }
    let tag = n > 0 && content[n - 1] == 95;
    let body_len = if tag {
        n - 1
    } else {
        n
    };
    let ghost body = if tag {
        content@.drop_last()
    } else {
        content@
    };
    proof {
        assert(body == content@.take(body_len as int));
    }
    let odd = body_len % 2 == 1;
    let mut half: u8 = 0;
    if odd {
        let last = content[body_len - 1];
        proof {
            assert(body.last() == content@[body_len - 1]);
        }
        if !is_hex_digit(last) {
            return Err(SliceError::InvalidHex(last));
        }
        half = digit_val(last) * 16;
    }
    let pairs_len = if odd {
        body_len - 1
    } else {
        body_len
    };
    let ghost pairs = if odd {
        body.drop_last()
    } else {
        body
    };
    proof {
        assert(pairs == content@.take(pairs_len as int));
    }
    let nbytes = pairs_len / 2 + if odd {
        1usize
    } else {
        0usize
    };
    if nbytes > 128 {
        return Err(SliceError::TooLong);
    }
    let mut pairs_v: Vec<u8> = Vec::new();
    let mut j: usize = 0;
    while j < pairs_len
        invariant
            pairs_len <= content@.len(),
            0 <= j <= pairs_len,
            pairs_v@ == content@.take(pairs_len as int).take(j as int),
        decreases pairs_len - j,
    {
        let b = content[j];
        pairs_v.push(b);
        proof {
            assert(content@.take(pairs_len as int).take(j + 1) == content@.take(
                pairs_len as int,
            ).take(j as int).push(content@[j as int]));
        }
        j = j + 1;
    }
    proof {
        assert(pairs_v@ == pairs);
    }
    let mut bytes = match hex_decode(&pairs_v) {
        Ok(v) => v,
        Err(_) => {
            return Err(SliceError::InvalidHexFull);
        },
    };
    if odd {
        bytes.push(half);
    }
    let ghost spec_bytes = spec_hex_pairs_bytes(pairs) + if body.len() % 2 == 1 {
        seq![((spec_digit_val(body.last()) as int) * 16) as u8]
    } else {
        Seq::<u8>::empty()
    };
    proof {
        assert(bytes@ == spec_bytes);
    }
    let mut bits: usize = pairs_len / 2 * 8 + if odd {
        4usize
    } else {
        0usize
    };
    if tag {
        let mut k = bytes.len();
        proof {
            assert(bytes@.take(bytes@.len() as int) == bytes@);
        }
        while k > 0 && bytes[k - 1] == 0
            invariant
                0 <= k <= bytes@.len(),
                bytes@.len() <= 129,
                spec_tag_bits(bytes@) == spec_tag_bits(bytes@.take(k as int)),
            decreases k,
        {
            proof {
                let t = bytes@.take(k as int);
                assert(t.drop_last() == bytes@.take(k - 1));
                assert(t.last() == bytes@[k - 1]);
            }
            k = k - 1;
        }
        if k == 0 {
            bits = 0;
            proof {
                assert(bytes@.take(0int) == Seq::<u8>::empty());
            }
        } else {
            let last = bytes[k - 1];
            proof {
                let t = bytes@.take(k as int);
                assert(t.last() == bytes@[k - 1]);
                lemma_tz8_le(last);
            }
            bits = 8 * k - 1 - (trailing_zeros_u8(last) as usize);
        }
    }
    proof {
        lemma_tag_bits_bounds(bytes@);
        assert(bytes@.len() <= 128);
    }
    if bits > 1023 {
        return Err(SliceError::CellError);
    }
    match build_cell(&bytes, bits as u16) {
        Ok(c) => Ok(c),
        Err(_) => Err(SliceError::CellError),
    }
}

/// Decodes the interior of a `b{…}` literal into a cell, exactly as
/// `spec_bin_slice` describes, or reports why it is rejected.
pub fn parse_bin_slice(content: &Vec<u8>) -> (r: Result<Cell, SliceError>)
    ensures
        r matches Err(e) ==> spec_bin_slice(content@) == Err::<(Seq<u8>, int), SliceError>(e),
        r matches Ok(c) ==> (spec_bin_slice(content@) matches Ok(p) && cell_bit_len(c) == p.1
            && cell_data(c) == spec_cell_repr(p.0, p.1 as nat)),
{
    let n = content.len();
    let mut bytes: Vec<u8> = Vec::new();
    let mut cur: u8 = 0;
    let mut i: usize = 0;
    proof {
        reveal_with_fuel(pow_int, 9);
        lemma_first_non_bin(content@);
    }
    while i < n
        invariant
            n == content@.len(),
            0 <= i <= n,
            i <= 1024,
            forall|j: int| 0 <= j < i ==> spec_is_bin_digit(content@[j]),
            bytes@.len() == i / 8,
            forall|jj: int| 0 <= jj < i / 8 ==> bytes@[jj] == spec_bin_chunk(content@, jj),
            cur as int == digits_value(bit_vals(content@.subrange(8 * (i / 8) as int, i as int)), 2),
            cur < pow_int(2, (i % 8) as nat),
        decreases n - i,
    {
        let b = content[i];
        if !is_bin_digit(b) {
            proof {
                lemma_first_non_bin(content@);
                assert(first_non_bin(content@) == i);
            }
            return Err(SliceError::InvalidBin(b));
        }
        if i + 1 > 1024 {
            proof {
                lemma_first_non_bin(content@);
                assert(first_non_bin(content@) > 1024);
            }
            return Err(SliceError::TooLong);
        }
        let ghost old_partial = bit_vals(content@.subrange(8 * (i / 8) as int, i as int));
        proof {
            assert(pow_int(2, (i % 8) as nat) <= 128) by {
                reveal_with_fuel(pow_int, 9);
                crate::ast::lemma_pow_int_le(2, 2, (i % 8) as nat, 7);
            }
        }
        cur = cur * 2 + digit_val(b);
        i = i + 1;
        proof {
            let new_partial = bit_vals(content@.subrange(8 * ((i - 1) / 8) as int, i as int));
            assert(new_partial.drop_last() =~= old_partial);
            assert(new_partial.last() == spec_digit_val(content@[i - 1]));
            assert(cur as int == digits_value(new_partial, 2));
        }
        if i % 8 == 0 {
            bytes.push(cur);
            proof {
                let jj = i / 8 - 1;
                assert(8 * jj + 8 == i);
                assert((i - 1) / 8 == jj);
                let chunk = bit_vals(content@.subrange(8 * jj, i as int));
                assert(content@.subrange(8 * jj, i as int) =~= content@.subrange(
                    8 * ((i - 1) / 8) as int,
                    i as int,
                ));
                assert(cur as int == digits_value(chunk, 2));
                assert(pow_int(2, 0) == 1);
                assert(chunk.len() == 8);
                assert(content@.subrange(8 * jj, 8 * jj + 8) =~= content@.subrange(
                    8 * jj,
                    i as int,
                ));
                assert(digits_value(bit_vals(content@.subrange(8 * jj, 8 * jj + 8)), 2)
                    == cur as int);
                assert((cur as int * 1) as u8 == cur);
                assert(spec_bin_chunk(content@, jj) == cur);
                assert(bytes@[jj] == cur);
            }
            cur = 0;
            proof {
                assert(bit_vals(content@.subrange(8 * (i / 8) as int, i as int)) =~= Seq::<
                    u8,
                >::empty());
            }
        }
    }
    proof {
        lemma_first_non_bin(content@);
        assert(first_non_bin(content@) == n);
    }
    let rem = n % 8;
    if rem != 0 {
        proof {
            reveal_with_fuel(pow_int, 9);
            crate::ast::lemma_pow_int_le(1, 2, 0, (8 - n % 8) as nat);
            crate::chars::lemma_pow_int_add(2, (n % 8) as nat, (8 - n % 8) as nat);
            assert((cur as int) * pow_int(2, (8 - n % 8) as nat) <= 255) by (nonlinear_arith)
                requires
                    0 <= cur as int <= pow_int(2, (n % 8) as nat) - 1,
                    pow_int(2, (n % 8) as nat) * pow_int(2, (8 - n % 8) as nat) == 256,
                    pow_int(2, (8 - n % 8) as nat) >= 1,
            ;
        }
        let shifted = cur * pow2_u8(8 - (rem as u8));
        bytes.push(shifted);
        proof {
            let jj = n as int / 8;
            let chunk = bit_vals(content@.subrange(8 * jj, n as int));
            assert(chunk =~= bit_vals(content@.subrange(8 * (n / 8) as int, n as int)));
            assert(chunk.len() == n % 8);
            assert(spec_bin_chunk(content@, jj) == shifted);
            assert(bytes@[jj] == shifted);
        }
    }
    proof {
        assert(bytes@ =~= spec_bin_bytes(content@));
    }
    proof {
        assert(bytes@.len() <= 128);
    }
    if n > 1023 {
        return Err(SliceError::CellError);
    }
    match build_cell(&bytes, n as u16) {
        Ok(c) => Ok(c),
        Err(_) => Err(SliceError::CellError),
    }
}

} // verus!
