use vstd::prelude::*;

use everscale_types::cell::Cell;
use everscale_types::cell::CellBuilder;

use crate::bitstring::spec_hex_pairs_bytes;
use crate::chars::spec_is_hex_digit;

verus! {

#[verifier::external_type_specification]
#[verifier::external_body]
pub struct ExCell(Cell);

#[verifier::external_type_specification]
#[verifier::external_body]
pub struct ExEverError(everscale_types::error::Error);

#[verifier::external_type_specification]
#[verifier::external_body]
pub struct ExFromHexError(hex::FromHexError);

/// The number of data bits a cell holds.
pub uninterp spec fn cell_bit_len(c: Cell) -> nat;

/// The raw data bytes a cell holds, as its accessor hands them out: the
/// last partial byte carries a completion-tag bit after the data bits.
pub uninterp spec fn cell_data(c: Cell) -> Seq<u8>;

/// The bytes a finished cell stores for `bits` bits taken from `data`:
/// the full bytes unchanged, and in a trailing partial byte the kept high
/// bits followed by one set completion-tag bit.
pub open spec fn spec_cell_repr(data: Seq<u8>, bits: nat) -> Seq<u8> {
    Seq::new(
        (bits + 7) / 8,
        |i: int|
            if 8 * i + 8 <= bits {
                data[i]
            } else {
                let rem = (bits % 8) as u8;
                ((data[i] & (0xffu8 << ((8 - rem) as u8))) | (1u8 << ((7 - rem) as u8))) as u8
            },
    )
}

/// Relies on everscale_types' CellBuilder::new, CellBuilder::store_raw and
/// CellBuilder::build: a fresh builder stores the first `bits` bits of
/// `data` (rejecting more than 1023 bits) and finalizes them into an
/// ordinary cell whose raw bytes carry a completion-tag bit in a trailing
/// partial byte. The buffer is kept within a cell's 128 bytes because
/// store_raw measures a value's capacity in a 16-bit bit count.
#[verifier::external_body]
pub(crate) fn build_cell(data: &Vec<u8>, bits: u16) -> (r: Result<
    Cell,
    everscale_types::error::Error,
>)
    requires
        data@.len() <= 128,
        bits as nat <= 8 * data@.len(),
    ensures
        bits <= 1023 ==> r is Ok,
        r matches Ok(c) ==> bits <= 1023 && cell_bit_len(c) == bits as nat && cell_data(c)
            == spec_cell_repr(data@, bits as nat),
{
    let mut builder = CellBuilder::new();
    if let Err(e) = builder.store_raw(data.as_slice(), bits) {
        return Err(e);
    }
    builder.build()
}

/// Relies on hex::decode: decodes an even-length run of ASCII hex digits,
/// two digits to a byte, and rejects an odd length or a non-hex byte.
#[verifier::external_body]
pub(crate) fn hex_decode(s: &Vec<u8>) -> (r: Result<Vec<u8>, hex::FromHexError>)
    ensures
        r is Ok <==> (s@.len() % 2 == 0 && (forall|i: int|
            0 <= i < s@.len() ==> spec_is_hex_digit(s@[i]))),
        r matches Ok(v) ==> v@ == spec_hex_pairs_bytes(s@),
{
    hex::decode(s.as_slice())
}

} // verus!
