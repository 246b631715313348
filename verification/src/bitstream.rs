//! Bit-granular reading of byte buffers, on top of the `bitreader` crate.

use bitreader::{BitReader, BitReaderError};
use vstd::arithmetic::power2::pow2;
use vstd::prelude::*;

verus! {

/// `bitreader::BitReader`: a cursor over a byte slice, read bit by bit.
#[verifier::external_type_specification]
#[verifier::external_body]
pub struct ExBitReader<'a>(BitReader<'a>);

/// `bitreader::BitReaderError`: why a read failed.
#[verifier::external_type_specification]
#[verifier::external_body]
pub struct ExBitReaderError(BitReaderError);

/// Number of bits in a byte sequence.
pub open spec fn bit_len(bytes: Seq<u8>) -> nat {
    8 * bytes.len()
}

/// The bit at index `i` of `bytes`, counting from the most significant bit of the first byte.
pub open spec fn bit_at(bytes: Seq<u8>, i: nat) -> nat {
    ((bytes[(i / 8) as int] as nat) / pow2((7 - i % 8) as nat)) % 2
}

/// The `n` bits starting at bit index `start`, read as a big-endian unsigned number.
pub open spec fn bits_be(bytes: Seq<u8>, start: nat, n: nat) -> nat
    decreases n,
{
    if n == 0 {
        0
    } else {
        2 * bits_be(bytes, start, (n - 1) as nat) + bit_at(bytes, (start + n - 1) as nat)
    }
}

/// The bytes a reader reads from.
pub uninterp spec fn reader_bytes(r: BitReader) -> Seq<u8>;

/// The bit index in the bytes at which the reader's position 0 lies.
pub uninterp spec fn reader_offset(r: BitReader) -> nat;

/// The reader's position: the number of bits read so far.
pub uninterp spec fn reader_position(r: BitReader) -> nat;

/// The number of bits, counted from position 0, that the reader may read.
pub uninterp spec fn reader_length(r: BitReader) -> nat;

/// A reader whose positions all stay within its bytes and within `u64`.
pub open spec fn reader_sound(r: BitReader) -> bool {
    &&& reader_position(r) <= reader_length(r)
    &&& reader_offset(r) + reader_length(r) <= bit_len(reader_bytes(r))
    &&& bit_len(reader_bytes(r)) + 64 <= u64::MAX
}

/// The bit index in the bytes at which the next read starts.
pub open spec fn reader_cursor(r: BitReader) -> nat {
    reader_offset(r) + reader_position(r)
}

/// `n` bits read as a number stay below 2^n.
pub proof fn lemma_bits_be_bound(bytes: Seq<u8>, start: nat, n: nat)
    ensures
        bits_be(bytes, start, n) < pow2(n),
    decreases n,
{
    if n > 0 {
        lemma_bits_be_bound(bytes, start, (n - 1) as nat);
        vstd::arithmetic::power2::lemma_pow2_unfold(n);
    } else {
        vstd::arithmetic::power2::lemma2_to64();
    }
}

/// Reading `m + n` bits is reading the first `m`, shifted left by `n`, plus the next `n`.
pub proof fn lemma_bits_be_split(bytes: Seq<u8>, start: nat, m: nat, n: nat)
    ensures
        bits_be(bytes, start, m + n) == bits_be(bytes, start, m) * pow2(n) + bits_be(bytes, start + m, n),
    decreases n,
{
    vstd::arithmetic::power2::lemma2_to64();
    if n > 0 {
        lemma_bits_be_split(bytes, start, m, (n - 1) as nat);
        vstd::arithmetic::power2::lemma_pow2_unfold(n);
        let a = bits_be(bytes, start, m);
        let p = pow2((n - 1) as nat);
        let b = bits_be(bytes, start + m, (n - 1) as nat);
        assert(bits_be(bytes, start, m + n) == 2 * bits_be(bytes, start, (m + n - 1) as nat) + bit_at(
            bytes,
            (start + m + n - 1) as nat,
        ));
        let c = bit_at(bytes, (start + m + n - 1) as nat);
        assert(bits_be(bytes, start + m, n) == 2 * b + c);
        assert(bits_be(bytes, start, (m + n - 1) as nat) == a * p + b);
        assert(pow2(n) == 2 * p);
        assert(2 * (a * p + b) + c == a * (2 * p) + (2 * b + c)) by (nonlinear_arith);
        assert(bits_be(bytes, start, m + n) == 2 * (a * p + b) + c);
    } else {
        assert(m + n == m);
        assert(bits_be(bytes, start, m) * pow2(0) == bits_be(bytes, start, m));
    }
}

/// `BitReader::new`: a reader at position 0 over all bits of `data`.
#[verifier::external_body]
pub(crate) fn reader_new<'a>(data: &'a [u8]) -> (r: BitReader<'a>)
    requires
        bit_len(data@) + 64 <= u64::MAX,
    ensures
        reader_bytes(r) == data@,
        reader_offset(r) == 0,
        reader_position(r) == 0,
        reader_length(r) == bit_len(data@),
{
    BitReader::new(data)
}

/// `BitReader::read_u8`: reads the next `n` bits (1 to 8) big-endian and moves past them;
/// fails, without moving, when fewer than `n` bits are left.
#[verifier::external_body]
pub(crate) fn read_u8(r: &mut BitReader, n: u8) -> (res: Result<u8, BitReaderError>)
    requires
        1 <= n <= 8,
        reader_sound(*old(r)),
    ensures
        reader_bytes(*final(r)) == reader_bytes(*old(r)),
        reader_offset(*final(r)) == reader_offset(*old(r)),
        reader_length(*final(r)) == reader_length(*old(r)),
        res is Ok <==> reader_position(*old(r)) + n <= reader_length(*old(r)),
        res is Ok ==> reader_position(*final(r)) == reader_position(*old(r)) + n,
        res is Err ==> reader_position(*final(r)) == reader_position(*old(r)),
        res matches Ok(v) ==> v as nat == bits_be(reader_bytes(*old(r)), reader_cursor(*old(r)), n as nat),
{
    r.read_u8(n)
}

/// `BitReader::read_u16`: reads the next `n` bits (1 to 16) big-endian and moves past them;
/// fails, without moving, when fewer than `n` bits are left.
#[verifier::external_body]
pub(crate) fn read_u16(r: &mut BitReader, n: u8) -> (res: Result<u16, BitReaderError>)
    requires
        1 <= n <= 16,
        reader_sound(*old(r)),
    ensures
        reader_bytes(*final(r)) == reader_bytes(*old(r)),
        reader_offset(*final(r)) == reader_offset(*old(r)),
        reader_length(*final(r)) == reader_length(*old(r)),
        res is Ok <==> reader_position(*old(r)) + n <= reader_length(*old(r)),
        res is Ok ==> reader_position(*final(r)) == reader_position(*old(r)) + n,
        res is Err ==> reader_position(*final(r)) == reader_position(*old(r)),
        res matches Ok(v) ==> v as nat == bits_be(reader_bytes(*old(r)), reader_cursor(*old(r)), n as nat),
{
    r.read_u16(n)
}

/// `BitReader::read_u32`: reads the next `n` bits (1 to 32) big-endian and moves past them;
/// fails, without moving, when fewer than `n` bits are left.
#[verifier::external_body]
pub(crate) fn read_u32(r: &mut BitReader, n: u8) -> (res: Result<u32, BitReaderError>)
    requires
        1 <= n <= 32,
        reader_sound(*old(r)),
    ensures
        reader_bytes(*final(r)) == reader_bytes(*old(r)),
        reader_offset(*final(r)) == reader_offset(*old(r)),
        reader_length(*final(r)) == reader_length(*old(r)),
        res is Ok <==> reader_position(*old(r)) + n <= reader_length(*old(r)),
        res is Ok ==> reader_position(*final(r)) == reader_position(*old(r)) + n,
        res is Err ==> reader_position(*final(r)) == reader_position(*old(r)),
        res matches Ok(v) ==> v as nat == bits_be(reader_bytes(*old(r)), reader_cursor(*old(r)), n as nat),
{
    r.read_u32(n)
}

/// `BitReader::position`: the number of bits read so far.
#[verifier::external_body]
pub(crate) fn position(r: &BitReader) -> (p: u64)
    ensures
        p as nat == reader_position(*r),
{
    r.position()
}

} // verus!
