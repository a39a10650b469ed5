//! The byte-level bit reader that the boolean decoder draws its input from.
//!
//! `bitreader::BitReader` is used as it is; Verus sees it as an opaque type whose
//! contents are named by [`unread_bits`]: the bits that the reader can still hand
//! out, in the order it hands them out (each byte most significant bit first).
use vstd::prelude::*;
use bitreader::BitReader;
use bitreader::BitReaderError;

verus! {

#[verifier::external_type_specification]
#[verifier::external_body]
pub struct ExBitReader<'a>(BitReader<'a>);

#[verifier::external_type_specification]
#[verifier::external_body]
pub struct ExBitReaderError(BitReaderError);

/// The bits that `r` has not handed out yet: those from its cursor up to the end of
/// the region it may read, each byte taken from its most significant bit down.
pub uninterp spec fn unread_bits(r: BitReader) -> Seq<bool>;

/// The number 0 or 1 that a bit stands for.
pub open spec fn bit_value(b: bool) -> nat {
    if b {
        1
    } else {
        0
    }
}

/// The unsigned number that `bits` spell out, most significant bit first.
pub open spec fn bits_value(bits: Seq<bool>) -> nat
    decreases bits.len(),
{
    if bits.len() == 0 {
        0
    } else {
        2 * bits_value(bits.drop_last()) + bit_value(bits.last())
    }
}

/// A number spelled by `n` bits is below `2^n`.
pub proof fn lemma_bits_value_bound(bits: Seq<bool>)
    ensures
        bits_value(bits) < vstd::arithmetic::power2::pow2(bits.len()),
    decreases bits.len(),
{
    if bits.len() > 0 {
        lemma_bits_value_bound(bits.drop_last());
        vstd::arithmetic::power2::lemma_pow2_unfold(bits.len());
    } else {
        vstd::arithmetic::power2::lemma_pow2_pos(0);
        vstd::arithmetic::power2::lemma2_to64();
    }
}

/// `BitReader::read_bool`: when a bit is left, hands out the next bit and moves past
/// it; otherwise fails with `NotEnoughData` and leaves the reader as it was.
#[verifier::external_body]
pub(crate) fn read_next_bit(r: &mut BitReader) -> (res: Result<bool, BitReaderError>)
    ensures
        unread_bits(*old(r)).len() > 0 ==> {
            &&& res == Ok::<bool, BitReaderError>(unread_bits(*old(r))[0])
            &&& unread_bits(*final(r)) == unread_bits(*old(r)).drop_first()
        },
        unread_bits(*old(r)).len() == 0 ==> res is Err && *final(r) == *old(r),
{
    r.read_bool()
}

/// `BitReader::read_u8`: for at most 8 bits, when `count` bits are left, hands out the
/// number they spell (most significant first) and moves past them; otherwise fails
/// with `NotEnoughData` and leaves the reader as it was.
#[verifier::external_body]
pub(crate) fn read_bits_u8(r: &mut BitReader, count: u8) -> (res: Result<u8, BitReaderError>)
    requires
        count <= 8,
    ensures
        unread_bits(*old(r)).len() >= count ==> {
            &&& res matches Ok(v) && v == bits_value(unread_bits(*old(r)).take(count as int))
            &&& unread_bits(*final(r)) == unread_bits(*old(r)).skip(count as int)
        },
        unread_bits(*old(r)).len() < count ==> res is Err && *final(r) == *old(r),
{
    r.read_u8(count)
}

/// `BitReader::read_u64`: for at most 64 bits, when `count` bits are left, hands out
/// the number they spell (most significant first) and moves past them; otherwise
/// fails with `NotEnoughData` and leaves the reader as it was.
#[verifier::external_body]
pub(crate) fn read_bits_u64(r: &mut BitReader, count: u8) -> (res: Result<u64, BitReaderError>)
    requires
        count <= 64,
    ensures
        unread_bits(*old(r)).len() >= count ==> {
            &&& res matches Ok(v) && v == bits_value(unread_bits(*old(r)).take(count as int))
            &&& unread_bits(*final(r)) == unread_bits(*old(r)).skip(count as int)
        },
        unread_bits(*old(r)).len() < count ==> res is Err && *final(r) == *old(r),
{
    r.read_u64(count)
}

} // verus!
