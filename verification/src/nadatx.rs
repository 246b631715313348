//! The feedback format read by the NADA sender element: a transport-wide
//! feedback report body (base sequence number, status count, reference time,
//! feedback count), its packet status chunks and the receive deltas.

use crate::bitstream::{bit_len, bits_be, lemma_bits_be_bound, lemma_bits_be_split, position, read_u16, read_u32, read_u8, reader_bytes, reader_length, reader_new, reader_offset, reader_position};
pub use crate::feedback::Feedback;
use bitreader::BitReader;
use vstd::prelude::*;

verus! {

/// Why a feedback report could not be read.
#[derive(Debug, Clone, Copy, PartialEq, Eq)]
pub enum TwccError {
    /// The report ends before all of its fields.
    NotEnoughData,
}

/// Sequence number `k` places after `first`, modulo 2^16.
pub open spec fn seq_after(first: nat, k: nat) -> u16 {
    ((first + k) % 0x10000) as u16
}

pub open spec fn min_nat(a: nat, b: nat) -> nat {
    if a < b {
        a
    } else {
        b
    }
}

/// Symbol size, in bits, of a status vector chunk.
pub open spec fn symbol_bits(chunk: nat) -> nat {
    if (chunk / 0x4000) % 2 == 1 {
        2
    } else {
        1
    }
}

/// The packet status chunk that starts at bit `pos`, when `parsed` of the `total` statuses
/// are known: the bit index after it and the statuses that it adds.
/// A run length chunk (top bit 0) gives `min(run length, statuses left)` statuses with its
/// two-bit symbol; a status vector chunk (top bit 1) is followed by `min(14 / size,
/// statuses left)` symbols of `size` bits each.
#[verifier::opaque]
pub open spec fn status_chunk(bytes: Seq<u8>, base: nat, total: nat, pos: nat, parsed: nat) -> Option<
    (nat, Seq<Feedback>),
> {
    if pos + 16 > bit_len(bytes) {
        None
    } else {
        let chunk = bits_be(bytes, pos, 16);
        let left = (total - parsed) as nat;
        let first = base + parsed;
        if chunk / 0x8000 == 1 {
            let size = symbol_bits(chunk);
            let n = min_nat(left, 14nat / size);
            let end = pos + 16 + n * size;
            if end > bit_len(bytes) {
                None
            } else {
                Some(
                    (
                        end,
                        Seq::new(
                            n,
                            |k: int|
                                Feedback {
                                    ecn: bits_be(bytes, (pos + 16 + k * size) as nat, size) as u8,
                                    seq: seq_after(first, k as nat),
                                    ts: 0,
                                },
                        ),
                    ),
                )
            }
        } else {
            let n = min_nat(left, chunk % 0x2000);
            let ecn = ((chunk / 0x2000) % 4) as u8;
            Some(
                (
                    pos + 16,
                    Seq::new(n, |k: int| Feedback { ecn, seq: seq_after(first, k as nat), ts: 0 }),
                ),
            )
        }
    }
}

/// The status chunks from bit `pos` on, until `total` statuses are known: the bit index
/// after the last chunk and all statuses, in order.
pub open spec fn status_chunks(bytes: Seq<u8>, base: nat, total: nat, pos: nat, parsed: nat) -> Option<
    (nat, Seq<Feedback>),
>
    decreases bit_len(bytes) - pos,
{
    if parsed >= total {
        Some((pos, Seq::empty()))
    } else {
        proof {
            reveal(status_chunk);
        }
        match status_chunk(bytes, base, total, pos, parsed) {
            None => None,
            Some((next, items)) => match status_chunks(
                bytes,
                base,
                total,
                next,
                parsed + items.len(),
            ) {
                None => None,
                Some((end, rest)) => Some((end, items + rest)),
            },
        }
    }
}

/// `r` with `acc` put in front of its statuses.
pub open spec fn after_prefix(acc: Seq<Feedback>, r: Option<(nat, Seq<Feedback>)>) -> Option<
    (nat, Seq<Feedback>),
> {
    match r {
        Some((end, rest)) => Some((end, acc + rest)),
        None => None,
    }
}

/// Width in bits of the receive delta of a status: one byte for symbol 1, two for symbol 2.
pub open spec fn delta_bits(ecn: u8) -> nat {
    if ecn == 1 {
        8
    } else if ecn == 2 {
        16
    } else {
        0
    }
}

/// Bits taken by the receive deltas of the first `k` statuses.
pub open spec fn deltas_bits(items: Seq<Feedback>, k: nat) -> nat
    decreases k,
{
    if k == 0 {
        0
    } else {
        deltas_bits(items, (k - 1) as nat) + delta_bits(items[k - 1].ecn)
    }
}

/// The receive delta of status `k`, in units of 250 microseconds, when the deltas start
/// at bit `start`; a two-byte delta keeps its low byte.
pub open spec fn delta_at(bytes: Seq<u8>, items: Seq<Feedback>, start: nat, k: nat) -> nat {
    let p = start + deltas_bits(items, k);
    let ecn = items[k as int].ecn;
    if ecn == 1 {
        bits_be(bytes, p, 8)
    } else if ecn == 2 {
        bits_be(bytes, p, 16) % 256
    } else {
        0
    }
}

/// Sum of the receive deltas of the first `k` statuses.
pub open spec fn delta_sum(bytes: Seq<u8>, items: Seq<Feedback>, start: nat, k: nat) -> nat
    decreases k,
{
    if k == 0 {
        0
    } else {
        delta_sum(bytes, items, start, (k - 1) as nat) + delta_at(bytes, items, start, (k - 1) as nat)
    }
}

/// The statuses with their receive times: each status with a symbol other than 0 gets the
/// reference time plus the deltas up to and including its own, in milliseconds.
pub open spec fn stamped(bytes: Seq<u8>, items: Seq<Feedback>, start: nat, reference: nat) -> Seq<
    Feedback,
> {
    Seq::new(
        items.len(),
        |k: int|
            if items[k].ecn == 0 {
                items[k]
            } else {
                Feedback {
                    ecn: items[k].ecn,
                    seq: items[k].seq,
                    ts: ((reference + 250000 * delta_sum(bytes, items, start, (k + 1) as nat)) / 1000) as u64,
                }
            },
    )
}

/// What a feedback report body decodes to: the statuses and the number of whole bytes read,
/// or no statuses at all when its base sequence number is `last`.
pub open spec fn twcc_feedback(bytes: Seq<u8>, last: Option<usize>) -> Result<
    (Seq<Feedback>, u64),
    TwccError,
> {
    if bit_len(bytes) < 16 {
        Err(TwccError::NotEnoughData)
    } else if last matches Some(l) && l as nat == bits_be(bytes, 0, 16) {
        Ok((Seq::empty(), 0))
    } else if bit_len(bytes) < 64 {
        Err(TwccError::NotEnoughData)
    } else {
        report_body(bytes, bits_be(bytes, 0, 16), bits_be(bytes, 16, 16), bits_be(bytes, 32, 24) * 64000000)
    }
}

/// What follows the 64-bit header of a report with base sequence number `base`, `total`
/// statuses and reference time `reference` (in microseconds): the stamped statuses and the
/// number of whole bytes read.
pub open spec fn report_body(bytes: Seq<u8>, base: nat, total: nat, reference: nat) -> Result<
    (Seq<Feedback>, u64),
    TwccError,
> {
    match status_chunks(bytes, base, total, 64, 0) {
        None => Err(TwccError::NotEnoughData),
        Some((pos, items)) => timed_report(bytes, items, pos, reference),
    }
}

/// The report once its statuses `items` are known and their receive deltas start at bit
/// `pos`: the stamped statuses and the number of whole bytes read.
pub open spec fn timed_report(bytes: Seq<u8>, items: Seq<Feedback>, pos: nat, reference: nat) -> Result<
    (Seq<Feedback>, u64),
    TwccError,
> {
    let end = pos + deltas_bits(items, items.len());
    if end > bit_len(bytes) {
        Err(TwccError::NotEnoughData)
    } else {
        Ok((stamped(bytes, items, pos, reference), (end / 8) as u64))
    }
}

proof fn lemma_status_chunks_step(bytes: Seq<u8>, base: nat, total: nat, pos: nat, parsed: nat)
    requires
        parsed < total,
    ensures
        status_chunks(bytes, base, total, pos, parsed) == match status_chunk(
            bytes,
            base,
            total,
            pos,
            parsed,
        ) {
            None => None,
            Some((next, items)) => after_prefix(
                items,
                status_chunks(bytes, base, total, next, parsed + items.len()),
            ),
        },
{
}

proof fn lemma_after_prefix_concat(a: Seq<Feedback>, b: Seq<Feedback>, r: Option<(nat, Seq<Feedback>)>)
    ensures
        after_prefix(a, after_prefix(b, r)) == after_prefix(a + b, r),
{
    if let Some((end, rest)) = r {
        assert(a + (b + rest) =~= (a + b) + rest);
    }
}

/// The deltas of more statuses take at least as many bits.
pub proof fn lemma_deltas_bits_monotone(items: Seq<Feedback>, j: nat, k: nat)
    requires
        j <= k,
    ensures
        deltas_bits(items, j) <= deltas_bits(items, k),
    decreases k,
{
    if j < k {
        lemma_deltas_bits_monotone(items, j, (k - 1) as nat);
    }
}

proof fn lemma_seq_after(first: nat, off: u16, i: u16)
    requires
        off as nat == first % 0x10000,
    ensures
        off.wrapping_add(i) == seq_after(first, i as nat),
{
    vstd::arithmetic::div_mod::lemma_add_mod_noop(first as int, i as int, 0x10000);
    vstd::arithmetic::div_mod::lemma_small_mod(i as nat, 0x10000);
    if off + i >= 0x10000 {
        vstd::arithmetic::div_mod::lemma_mod_sub_multiples_vanish((off + i) as int, 0x10000);
        vstd::arithmetic::div_mod::lemma_small_mod((off + i - 0x10000) as nat, 0x10000);
    } else {
        vstd::arithmetic::div_mod::lemma_small_mod((off + i) as nat, 0x10000);
    }
}

proof fn lemma_chunk_bits(c: u16)
    ensures
        (c >> 15u16 == 1) == (c as nat / 0x8000 == 1),
        ((c & 0x4000) >> 14u16) as nat == (c as nat / 0x4000) % 2,
        ((c & 0x6000) >> 13u16) as nat == (c as nat / 0x2000) % 4,
        (c & 0x1fff) as nat == c as nat % 0x2000,
{
    assert((c >> 15u16 == 1) == (c / 0x8000 == 1)) by (bit_vector);
    assert((c & 0x4000) >> 14u16 == (c / 0x4000) % 2) by (bit_vector);
    assert((c & 0x6000) >> 13u16 == (c / 0x2000) % 4) by (bit_vector);
    assert(c & 0x1fff == c % 0x2000) by (bit_vector);
}

/// Reads the packet status chunk at the reader's position, when `packets_parsed` of the
/// `packet_status` statuses are known, and appends the statuses that it gives.
#[verifier::loop_isolation(false)]
fn read_status_chunk(
    reader: &mut BitReader,
    base_seq: u16,
    packet_status: u16,
    packets_parsed: u16,
    ecn_list: &mut Vec<Feedback>,
) -> (res: Result<u16, TwccError>)
    requires
        reader_offset(*old(reader)) == 0,
        reader_length(*old(reader)) == bit_len(reader_bytes(*old(reader))),
        reader_position(*old(reader)) <= reader_length(*old(reader)),
        bit_len(reader_bytes(*old(reader))) + 64 <= u64::MAX,
        packets_parsed < packet_status,
    ensures
        reader_bytes(*final(reader)) == reader_bytes(*old(reader)),
        reader_offset(*final(reader)) == 0,
        reader_length(*final(reader)) == reader_length(*old(reader)),
        reader_position(*final(reader)) <= reader_length(*final(reader)),
        match status_chunk(
            reader_bytes(*old(reader)),
            base_seq as nat,
            packet_status as nat,
            reader_position(*old(reader)),
            packets_parsed as nat,
        ) {
            None => res is Err,
            Some((next, items)) => {
                &&& res == Ok::<u16, TwccError>(items.len() as u16)
                &&& reader_position(*final(reader)) == next
                &&& final(ecn_list)@ == old(ecn_list)@ + items
            },
        },
{
    let ghost bytes = reader_bytes(*reader);
    let ghost pos0 = reader_position(*reader);
    let ghost base = base_seq as nat;
    let ghost parsed0 = packets_parsed as nat;
    let ghost total = packet_status as nat;
    let ghost list0 = ecn_list@;
    let ghost step = status_chunk(bytes, base, total, pos0, parsed0);
    proof {
        reveal(status_chunk);
    }
    let remaining_pkt = packet_status - packets_parsed;
    let seqnum_offset = base_seq.wrapping_add(packets_parsed);
    proof {
        vstd::arithmetic::div_mod::lemma_small_mod(base, 0x10000);
        lemma_seq_after(base, base_seq, packets_parsed);
    }
    let pkt_chunk = match read_u16(reader, 16) {
        Ok(v) => v,
        Err(_) => return Err(TwccError::NotEnoughData),
    };
    let ghost chunk = pkt_chunk as nat;
    assert(chunk == bits_be(bytes, pos0, 16));
    proof {
        lemma_chunk_bits(pkt_chunk);
    }
    if (pkt_chunk >> 15) == 1 {
        let sym_size: u16 = ((pkt_chunk & 0x4000) >> 14) + 1;
        let n_bits: u16 = if remaining_pkt < 14 / sym_size {
            remaining_pkt
        } else {
            14 / sym_size
        };
        let ghost size = sym_size as nat;
        let ghost n = n_bits as nat;
        assert(size == symbol_bits(chunk));
        assert(n == min_nat((total - parsed0) as nat, 14nat / size));
        let ghost f = |k: int|
            Feedback {
                ecn: bits_be(bytes, (pos0 + 16 + k * size) as nat, size) as u8,
                seq: seq_after(base + parsed0, k as nat),
                ts: 0,
            };
        let mut i: u16 = 0;
        while i < n_bits
            invariant
                reader_bytes(*reader) == bytes,
                reader_offset(*reader) == 0,
                reader_length(*reader) == bit_len(bytes),
                i <= n_bits,
                reader_position(*reader) == pos0 + 16 + i * size,
                reader_position(*reader) <= bit_len(bytes),
                ecn_list@ == list0 + Seq::new(i as nat, f),
            decreases n_bits - i,
        {
            let sym = match read_u8(reader, sym_size as u8) {
                Ok(v) => v,
                Err(_) => {
                    assert(pos0 + 16 + n * size > bit_len(bytes)) by (nonlinear_arith)
                        requires
                            pos0 + 16 + i * size + size > bit_len(bytes),
                            i < n,
                            size >= 1,
                    ;
                    return Err(TwccError::NotEnoughData);
                },
            };
            ecn_list.push(Feedback::new(sym, seqnum_offset.wrapping_add(i)));
            proof {
                lemma_seq_after(base + parsed0, seqnum_offset, i);
                assert((i + 1) * size == i * size + size) by (nonlinear_arith);
                assert(ecn_list@ =~= list0 + Seq::new((i + 1) as nat, f));
            }
            i = i + 1;
        }
        Ok(n_bits)
    } else {
        let ecn = (pkt_chunk & 0x6000) >> 13;
        let cnt = pkt_chunk & 0x1FFF;
        let rl: u16 = if remaining_pkt < cnt {
            remaining_pkt
        } else {
            cnt
        };
        let ghost f = |k: int| Feedback { ecn: ecn as u8, seq: seq_after(base + parsed0, k as nat), ts: 0 };
        let mut i: u16 = 0;
        while i < rl
            invariant
                i <= rl,
                ecn_list@ == list0 + Seq::new(i as nat, f),
            decreases rl - i,
        {
            ecn_list.push(Feedback::new(ecn as u8, seqnum_offset.wrapping_add(i)));
            proof {
                lemma_seq_after(base + parsed0, seqnum_offset, i);
                assert(ecn_list@ =~= list0 + Seq::new((i + 1) as nat, f));
            }
            i = i + 1;
        }
        Ok(rl)
    }
}

proof fn lemma_status_chunk_bounds(bytes: Seq<u8>, base: nat, total: nat, pos: nat, parsed: nat)
    requires
        parsed < total,
    ensures
        status_chunk(bytes, base, total, pos, parsed) matches Some((next, items)) ==> {
            &&& pos + 16 <= next <= bit_len(bytes)
            &&& items.len() <= total - parsed
        },
{
    reveal(status_chunk);
    if status_chunk(bytes, base, total, pos, parsed) is Some {
        let chunk = bits_be(bytes, pos, 16);
        if chunk / 0x8000 == 1 {
            let size = symbol_bits(chunk);
            let n = min_nat((total - parsed) as nat, 14nat / size);
            assert(n * size >= 0) by (nonlinear_arith)
                requires
                    size >= 1,
            ;
        }
    }
}

/// Reads the receive deltas of `ecn_list`, which follow at the reader's position, and
/// gives each status with a symbol other than 0 its receive time.
#[verifier::loop_isolation(false)]
fn read_deltas(reader: &mut BitReader, ecn_list: &mut Vec<Feedback>, ref_time: u64) -> (res: Result<(), TwccError>)
    requires
        reader_offset(*old(reader)) == 0,
        reader_length(*old(reader)) == bit_len(reader_bytes(*old(reader))),
        reader_position(*old(reader)) <= reader_length(*old(reader)),
        bit_len(reader_bytes(*old(reader))) + 64 <= u64::MAX,
        old(ecn_list)@.len() <= 0x10000,
        ref_time <= 0x1_0000_0000 * 64000000,
    ensures
        reader_bytes(*final(reader)) == reader_bytes(*old(reader)),
        ({
            let bytes = reader_bytes(*old(reader));
            let items = old(ecn_list)@;
            let start = reader_position(*old(reader));
            let end = start + deltas_bits(items, items.len());
            &&& res is Ok <==> end <= bit_len(bytes)
            &&& res is Ok ==> final(ecn_list)@ == stamped(bytes, items, start, ref_time as nat)
            &&& res is Ok ==> reader_position(*final(reader)) == end
        }),
{
    let ghost bytes = reader_bytes(*reader);
    let ghost items = ecn_list@;
    let ghost start = reader_position(*reader);
    let ghost out = stamped(bytes, items, start, ref_time as nat);
    let len = ecn_list.len();
    let mut ts_rounded: u64 = ref_time;
    let mut i: usize = 0;
    while i < len
        invariant
            reader_bytes(*reader) == bytes,
            reader_offset(*reader) == 0,
            reader_length(*reader) == bit_len(bytes),
            ecn_list@.len() == items.len(),
            len == items.len(),
            i <= len,
            reader_position(*reader) == start + deltas_bits(items, i as nat),
            reader_position(*reader) <= bit_len(bytes),
            ts_rounded as nat == ref_time + 250000 * delta_sum(bytes, items, start, i as nat),
            delta_sum(bytes, items, start, i as nat) <= 255 * i,
            forall|k: int| 0 <= k < i ==> ecn_list@[k] == out[k],
            forall|k: int| i <= k < len ==> ecn_list@[k] == items[k],
        decreases len - i,
    {
        let mut pkt = ecn_list[i];
        let mut delta: u8 = 0;
        if pkt.ecn == 1 {
            delta = match read_u8(reader, 8) {
                Ok(v) => v,
                Err(_) => {
                    proof {
                        lemma_deltas_bits_monotone(items, (i + 1) as nat, len as nat);
                    }
                    return Err(TwccError::NotEnoughData);
                },
            };
        } else if pkt.ecn == 2 {
            delta = match read_u16(reader, 16) {
                Ok(v) => {
                    assert(v as u8 == v % 256) by (bit_vector);
                    v as u8
                },
                Err(_) => {
                    proof {
                        lemma_deltas_bits_monotone(items, (i + 1) as nat, len as nat);
                    }
                    return Err(TwccError::NotEnoughData);
                },
            };
        }
        assert(delta as nat == delta_at(bytes, items, start, i as nat));
        if pkt.ecn != 0 {
            let delta_ts: u64 = (delta as u64) * (1000 * 250);
            ts_rounded = ts_rounded + delta_ts;
            pkt.ts = ts_rounded / 1000;
            ecn_list.set(i, pkt);
        }
        i = i + 1;
    }
    assert(ecn_list@ =~= out);
    Ok(())
}

/// Reads a transport-wide feedback report body. When its base sequence number equals
/// `last`, the report was already handled and nothing more is read.
pub fn parse_twcc(data: &[u8], last: Option<usize>) -> (res: Result<(Vec<Feedback>, u64), TwccError>)
    requires
        bit_len(data@) + 64 <= u64::MAX,
    ensures
        match res {
            Ok((v, n)) => twcc_feedback(data@, last) == Ok::<_, TwccError>((v@, n)),
            Err(e) => twcc_feedback(data@, last) == Err::<(Seq<Feedback>, u64), _>(e),
        },
{
    let ghost bytes = data@;
    let mut reader = reader_new(data);
    let base_seq = match read_u16(&mut reader, 16) {
        Ok(v) => v,
        Err(_) => return Err(TwccError::NotEnoughData),
    };
    if let Some(la) = last {
        if la == base_seq as usize {
            return Ok((Vec::new(), 0));
        }
    }
    let packet_status = match read_u16(&mut reader, 16) {
        Ok(v) => v,
        Err(_) => return Err(TwccError::NotEnoughData),
    };
    let ref_time: u64 = match read_u32(&mut reader, 24) {
        Ok(v) => (v as u64) * 1000000 * 64,
        Err(_) => return Err(TwccError::NotEnoughData),
    };
    let _fb_pkt_count = match read_u32(&mut reader, 8) {
        Ok(v) => v,
        Err(_) => return Err(TwccError::NotEnoughData),
    };
    let ghost base = base_seq as nat;
    let ghost total = packet_status as nat;
    let ghost full = status_chunks(bytes, base, total, 64, 0);
    let ghost result = twcc_feedback(bytes, last);
    assert(result == report_body(bytes, base, total, ref_time as nat));

    let mut ecn_list: Vec<Feedback> = Vec::with_capacity(packet_status as usize);
    let mut packets_parsed: u16 = 0;
    while packets_parsed < packet_status
        invariant
            bytes == data@,
            reader_bytes(reader) == bytes,
            reader_offset(reader) == 0,
            reader_length(reader) == bit_len(bytes),
            reader_position(reader) <= bit_len(bytes),
            bit_len(bytes) + 64 <= u64::MAX,
            packets_parsed <= packet_status,
            base == base_seq as nat,
            total == packet_status as nat,
            ecn_list@.len() == packets_parsed as nat,
            result == twcc_feedback(bytes, last),
            result == report_body(bytes, base, total, ref_time as nat),
            full == status_chunks(bytes, base, total, 64, 0),
            full == after_prefix(
                ecn_list@,
                status_chunks(bytes, base, total, reader_position(reader), packets_parsed as nat),
            ),
        decreases bit_len(bytes) - reader_position(reader),
    {
        let ghost pos0 = reader_position(reader);
        let ghost parsed0 = packets_parsed as nat;
        let ghost list0 = ecn_list@;
        proof {
            lemma_status_chunk_bounds(bytes, base, total, pos0, parsed0);
            lemma_status_chunks_step(bytes, base, total, pos0, parsed0);
        }
        match read_status_chunk(&mut reader, base_seq, packet_status, packets_parsed, &mut ecn_list) {
            Ok(n) => {
                proof {
                    let items = status_chunk(bytes, base, total, pos0, parsed0).unwrap().1;
                    lemma_after_prefix_concat(
                        list0,
                        items,
                        status_chunks(bytes, base, total, reader_position(reader), parsed0 + items.len()),
                    );
                }
                packets_parsed = packets_parsed + n;
            },
            Err(_) => {
                assert(status_chunk(bytes, base, total, pos0, parsed0) is None);
                assert(full is None);
                return Err(TwccError::NotEnoughData);
            },
        }
    }
    assert(full == Some((reader_position(reader), ecn_list@)));
    match read_deltas(&mut reader, &mut ecn_list, ref_time) {
        Ok(()) => {},
        Err(_) => return Err(TwccError::NotEnoughData),
    }
    let p = position(&reader);
    assert(p >> 3 == p / 8) by (bit_vector);
    Ok((ecn_list, p >> 3))
}

proof fn lemma_status_chunks_shape(bytes: Seq<u8>, base: nat, total: nat, pos: nat, parsed: nat)
    requires
        parsed <= total,
    ensures
        status_chunks(bytes, base, total, pos, parsed) matches Some((end, items)) ==> {
            &&& items.len() == total - parsed
            &&& forall|k: int| 0 <= k < items.len() ==> #[trigger] items[k].seq == seq_after(base + parsed, k as nat)
            &&& forall|k: int| 0 <= k < items.len() ==> #[trigger] items[k].ts == 0
            &&& pos <= end
        },
    decreases bit_len(bytes) - pos,
{
    if parsed < total {
        lemma_status_chunk_bounds(bytes, base, total, pos, parsed);
        reveal(status_chunk);
        if let Some((next, items)) = status_chunk(bytes, base, total, pos, parsed) {
            lemma_status_chunks_shape(bytes, base, total, next, parsed + items.len());
            if let Some((end, rest)) = status_chunks(bytes, base, total, next, parsed + items.len()) {
                let all = items + rest;
                assert forall|k: int| 0 <= k < all.len() implies #[trigger] all[k].seq == seq_after(base + parsed, k as nat) by {
                    if k >= items.len() {
                        assert(all[k] == rest[k - items.len()]);
                    }
                }
                assert forall|k: int| 0 <= k < all.len() implies #[trigger] all[k].ts == 0 by {
                    if k >= items.len() {
                        assert(all[k] == rest[k - items.len()]);
                    }
                }
            }
        }
    }
}

proof fn lemma_delta_sum_monotone(bytes: Seq<u8>, items: Seq<Feedback>, start: nat, j: nat, k: nat)
    requires
        j <= k,
    ensures
        delta_sum(bytes, items, start, j) <= delta_sum(bytes, items, start, k),
    decreases k,
{
    if j < k {
        lemma_delta_sum_monotone(bytes, items, start, j, (k - 1) as nat);
    }
}

proof fn lemma_delta_sum_bound(bytes: Seq<u8>, items: Seq<Feedback>, start: nat, k: nat)
    ensures
        delta_sum(bytes, items, start, k) <= 255 * k,
    decreases k,
{
    if k > 0 {
        lemma_delta_sum_bound(bytes, items, start, (k - 1) as nat);
        lemma_bits_be_bound(bytes, start + deltas_bits(items, (k - 1) as nat), 8);
        vstd::arithmetic::power2::lemma2_to64();
    }
}

/// A decoded report (one not skipped as already handled) holds exactly as many statuses
/// as its packet status count announces, numbered consecutively from its base sequence
/// number modulo 2^16.
pub proof fn lemma_report_numbering(bytes: Seq<u8>, last: Option<usize>)
    requires
        twcc_feedback(bytes, last) is Ok,
        !(last matches Some(l) && l as nat == bits_be(bytes, 0, 16)),
    ensures
        ({
            let items = twcc_feedback(bytes, last)->Ok_0.0;
            &&& items.len() == bits_be(bytes, 16, 16)
            &&& forall|k: int| 0 <= k < items.len() ==> #[trigger] items[k].seq == seq_after(bits_be(bytes, 0, 16), k as nat)
            &&& forall|k: int| 0 <= k < items.len() ==> #[trigger] items[k].seq as int == (bits_be(bytes, 0, 16) + k) % 0x10000
        }),
{
    lemma_status_chunks_shape(bytes, bits_be(bytes, 0, 16), bits_be(bytes, 16, 16), 64, 0);
}

/// Receive times never go backwards: of two timed statuses (symbol other than 0) in a
/// decoded report, the later one has the later or equal time.
pub proof fn lemma_report_times_ordered(bytes: Seq<u8>, last: Option<usize>, j: int, k: int)
    requires
        twcc_feedback(bytes, last) is Ok,
        0 <= j < k < twcc_feedback(bytes, last)->Ok_0.0.len(),
        twcc_feedback(bytes, last)->Ok_0.0[j].ecn != 0,
        twcc_feedback(bytes, last)->Ok_0.0[k].ecn != 0,
    ensures
        twcc_feedback(bytes, last)->Ok_0.0[j].ts <= twcc_feedback(bytes, last)->Ok_0.0[k].ts,
{
    let base = bits_be(bytes, 0, 16);
    let total = bits_be(bytes, 16, 16);
    let reference = bits_be(bytes, 32, 24) * 64000000;
    if last matches Some(l) && l as nat == base {
        return;
    }
    let (pos, items) = status_chunks(bytes, base, total, 64, 0).unwrap();
    lemma_report_numbering(bytes, last);
    lemma_bits_be_bound(bytes, 16, 16);
    lemma_bits_be_bound(bytes, 32, 24);
    vstd::arithmetic::power2::lemma2_to64();
    lemma_delta_sum_bound(bytes, items, pos, (k + 1) as nat);
    lemma_delta_sum_monotone(bytes, items, pos, (j + 1) as nat, (k + 1) as nat);
    let a = reference + 250000 * delta_sum(bytes, items, pos, (j + 1) as nat);
    let b = reference + 250000 * delta_sum(bytes, items, pos, (k + 1) as nat);
    vstd::arithmetic::div_mod::lemma_div_is_ordered(a as int, b as int, 1000);
    assert(b <= 0x1_0000_0000 * 64000000 + 250000 * 255 * 0x10000);
    vstd::arithmetic::div_mod::lemma_div_is_ordered(b as int, 0x1_0000_0000int * 64000000 + 250000 * 255 * 0x10000, 1000);
}

/// A decoded report never claims more bytes than the packet holds.
pub proof fn lemma_report_within_packet(bytes: Seq<u8>, last: Option<usize>)
    requires
        twcc_feedback(bytes, last) is Ok,
    ensures
        twcc_feedback(bytes, last)->Ok_0.1 <= bytes.len(),
{
}

/// The fields of the 16-bit chunk at `pos`, as bits: bit 0 tells a status vector (1) from
/// a run (0); bit 1 is a vector's symbol size bit; bits 1-2 a run's symbol; bits 3-15 a
/// run's length.
proof fn lemma_chunk_fields(bytes: Seq<u8>, pos: nat)
    ensures
        bits_be(bytes, pos, 16) / 0x8000 == bits_be(bytes, pos, 1),
        (bits_be(bytes, pos, 16) / 0x4000) % 2 == bits_be(bytes, pos + 1, 1),
        (bits_be(bytes, pos, 16) / 0x2000) % 4 == bits_be(bytes, pos + 1, 2),
        bits_be(bytes, pos, 16) % 0x2000 == bits_be(bytes, pos + 3, 13),
        bits_be(bytes, pos, 1) <= 1,
        bits_be(bytes, pos + 1, 1) <= 1,
        bits_be(bytes, pos + 1, 2) < 4,
{
    vstd::arithmetic::power2::lemma2_to64();
    lemma_bits_be_split(bytes, pos, 1, 15);
    lemma_bits_be_split(bytes, pos + 1, 1, 14);
    lemma_bits_be_split(bytes, pos + 1, 2, 13);
    lemma_bits_be_bound(bytes, pos, 1);
    lemma_bits_be_bound(bytes, pos + 1, 1);
    lemma_bits_be_bound(bytes, pos + 1, 2);
    lemma_bits_be_bound(bytes, pos + 1, 15);
    lemma_bits_be_bound(bytes, pos + 2, 14);
    lemma_bits_be_bound(bytes, pos + 3, 13);
    let c = bits_be(bytes, pos, 16);
    let b0 = bits_be(bytes, pos, 1);
    let b1 = bits_be(bytes, pos + 1, 1);
    let e = bits_be(bytes, pos + 1, 2);
    let r14 = bits_be(bytes, pos + 2, 14);
    let r13 = bits_be(bytes, pos + 3, 13);
    assert(c == b0 * 0x8000 + b1 * 0x4000 + r14);
    assert(c == b0 * 0x8000 + e * 0x2000 + r13);
    assert(c / 0x8000 == b0) by (nonlinear_arith)
        requires
            c == b0 * 0x8000 + b1 * 0x4000 + r14,
            b1 <= 1,
            r14 < 0x4000,
    ;
    assert((c / 0x4000) % 2 == b1) by (nonlinear_arith)
        requires
            c == b0 * 0x8000 + b1 * 0x4000 + r14,
            b1 <= 1,
            r14 < 0x4000,
    ;
    assert((c / 0x2000) % 4 == e) by (nonlinear_arith)
        requires
            c == b0 * 0x8000 + e * 0x2000 + r13,
            e < 4,
            r13 < 0x2000,
    ;
    assert(c % 0x2000 == r13) by (nonlinear_arith)
        requires
            c == b0 * 0x8000 + e * 0x2000 + r13,
            r13 < 0x2000,
    ;
}

/// A run chunk (first bit 0) takes 16 bits and adds min(statuses left, its 13-bit run
/// length) statuses, each carrying the run's 2-bit symbol (bits 1 and 2 of the chunk),
/// numbered on from the statuses already known.
pub proof fn lemma_run_chunk(bytes: Seq<u8>, base: nat, total: nat, pos: nat, parsed: nat)
    requires
        parsed < total,
        pos + 16 <= bit_len(bytes),
        bits_be(bytes, pos, 1) == 0,
    ensures
        status_chunk(bytes, base, total, pos, parsed) == Some(
            (
                pos + 16,
                Seq::new(
                    min_nat((total - parsed) as nat, bits_be(bytes, pos + 3, 13)),
                    |k: int|
                        Feedback {
                            ecn: bits_be(bytes, pos + 1, 2) as u8,
                            seq: seq_after(base + parsed, k as nat),
                            ts: 0,
                        },
                ),
            ),
        ),
{
    reveal(status_chunk);
    lemma_chunk_fields(bytes, pos);
    let items = status_chunk(bytes, base, total, pos, parsed).unwrap().1;
    assert(items =~= Seq::new(
        min_nat((total - parsed) as nat, bits_be(bytes, pos + 3, 13)),
        |k: int| Feedback { ecn: bits_be(bytes, pos + 1, 2) as u8, seq: seq_after(base + parsed, k as nat), ts: 0 },
    ));
}

/// A status vector chunk (first bit 1) with symbol size s = 1 + its second bit gives
/// n = min(statuses left, 14 / s) statuses, whose symbols are the n s-bit fields right
/// after the chunk, numbered on from the statuses already known; it ends 16 + n * s bits
/// after its start, and fails when those bits are not all there.
pub proof fn lemma_vector_chunk(bytes: Seq<u8>, base: nat, total: nat, pos: nat, parsed: nat)
    requires
        parsed < total,
        pos + 16 <= bit_len(bytes),
        bits_be(bytes, pos, 1) == 1,
    ensures
        ({
            let s = bits_be(bytes, pos + 1, 1) + 1;
            let n = min_nat((total - parsed) as nat, 14nat / s);
            let end = pos + 16 + n * s;
            status_chunk(bytes, base, total, pos, parsed) == if end <= bit_len(bytes) {
                Some(
                    (
                        end,
                        Seq::new(
                            n,
                            |k: int|
                                Feedback {
                                    ecn: bits_be(bytes, (pos + 16 + k * s) as nat, s) as u8,
                                    seq: seq_after(base + parsed, k as nat),
                                    ts: 0,
                                },
                        ),
                    ),
                )
            } else {
                None
            }
        }),
{
    reveal(status_chunk);
    lemma_chunk_fields(bytes, pos);
    let s = bits_be(bytes, pos + 1, 1) + 1;
    assert(symbol_bits(bits_be(bytes, pos, 16)) == s);
    let n = min_nat((total - parsed) as nat, 14nat / s);
    if pos + 16 + n * s <= bit_len(bytes) {
        let items = status_chunk(bytes, base, total, pos, parsed).unwrap().1;
        assert(items =~= Seq::new(
            n,
            |k: int|
                Feedback {
                    ecn: bits_be(bytes, (pos + 16 + k * s) as nat, s) as u8,
                    seq: seq_after(base + parsed, k as nat),
                    ts: 0,
                },
        ));
    }
}

/// When one chunk gives all statuses of a report, the report is those statuses stamped
/// by the deltas after the chunk.
proof fn lemma_single_chunk_report(bytes: Seq<u8>, last: Option<usize>)
    requires
        bit_len(bytes) >= 80,
        !(last matches Some(l) && l as nat == bits_be(bytes, 0, 16)),
        bits_be(bytes, 16, 16) >= 1,
        status_chunk(bytes, bits_be(bytes, 0, 16), bits_be(bytes, 16, 16), 64, 0) matches Some((_, items))
            && items.len() == bits_be(bytes, 16, 16),
    ensures
        ({
            let (next, items) = status_chunk(bytes, bits_be(bytes, 0, 16), bits_be(bytes, 16, 16), 64, 0).unwrap();
            twcc_feedback(bytes, last) == timed_report(bytes, items, next, bits_be(bytes, 32, 24) * 64000000)
        }),
{
    let base = bits_be(bytes, 0, 16);
    let total = bits_be(bytes, 16, 16);
    let (next, items) = status_chunk(bytes, base, total, 64, 0).unwrap();
    lemma_status_chunks_step(bytes, base, total, 64, 0);
    assert(status_chunks(bytes, base, total, next, items.len()) == Some((next, Seq::<Feedback>::empty())));
    assert(items + Seq::<Feedback>::empty() =~= items);
}

/// A report of n statuses, 1 <= n <= 14 / s, made of one status vector chunk of symbol
/// size s right after the header: its statuses carry the n s-bit symbols after the chunk
/// and the numbers base, base + 1, ... (modulo 2^16); the chunks end at bit 80 + n * s,
/// where the receive deltas start.
pub proof fn lemma_report_one_vector(bytes: Seq<u8>, last: Option<usize>)
    requires
        bit_len(bytes) >= 80,
        !(last matches Some(l) && l as nat == bits_be(bytes, 0, 16)),
        bits_be(bytes, 64, 1) == 1,
        1 <= bits_be(bytes, 16, 16) <= 14nat / (bits_be(bytes, 65, 1) + 1),
    ensures
        ({
            let base = bits_be(bytes, 0, 16);
            let n = bits_be(bytes, 16, 16);
            let s = bits_be(bytes, 65, 1) + 1;
            let items = Seq::new(
                n,
                |k: int| Feedback { ecn: bits_be(bytes, (80 + k * s) as nat, s) as u8, seq: ((base + k) % 0x10000) as u16, ts: 0 },
            );
            twcc_feedback(bytes, last) == if 80 + n * s <= bit_len(bytes) {
                timed_report(bytes, items, 80 + n * s, bits_be(bytes, 32, 24) * 64000000)
            } else {
                Err(TwccError::NotEnoughData)
            }
        }),
{
    let base = bits_be(bytes, 0, 16);
    let n = bits_be(bytes, 16, 16);
    let s = bits_be(bytes, 65, 1) + 1;
    lemma_vector_chunk(bytes, base, n, 64, 0);
    assert(min_nat(n, 14nat / s) == n);
    if 80 + n * s <= bit_len(bytes) {
        lemma_single_chunk_report(bytes, last);
        let items = status_chunk(bytes, base, n, 64, 0).unwrap().1;
        assert(items =~= Seq::new(
            n,
            |k: int| Feedback { ecn: bits_be(bytes, (80 + k * s) as nat, s) as u8, seq: ((base + k) % 0x10000) as u16, ts: 0 },
        ));
    } else {
        lemma_status_chunks_step(bytes, base, n, 64, 0);
    }
}

/// A report of n >= 1 statuses made of one run chunk right after the header whose run
/// length is at least n: every status carries the run's 2-bit symbol, whatever it is, and
/// the numbers base, base + 1, ... (modulo 2^16); the receive deltas start at bit 80.
pub proof fn lemma_report_one_run(bytes: Seq<u8>, last: Option<usize>)
    requires
        bit_len(bytes) >= 80,
        !(last matches Some(l) && l as nat == bits_be(bytes, 0, 16)),
        bits_be(bytes, 64, 1) == 0,
        1 <= bits_be(bytes, 16, 16) <= bits_be(bytes, 67, 13),
    ensures
        ({
            let base = bits_be(bytes, 0, 16);
            let n = bits_be(bytes, 16, 16);
            let items = Seq::new(
                n,
                |k: int| Feedback { ecn: bits_be(bytes, 65, 2) as u8, seq: ((base + k) % 0x10000) as u16, ts: 0 },
            );
            twcc_feedback(bytes, last) == timed_report(bytes, items, 80, bits_be(bytes, 32, 24) * 64000000)
        }),
{
    let base = bits_be(bytes, 0, 16);
    let n = bits_be(bytes, 16, 16);
    lemma_run_chunk(bytes, base, n, 64, 0);
    lemma_single_chunk_report(bytes, last);
    let items = status_chunk(bytes, base, n, 64, 0).unwrap().1;
    assert(items =~= Seq::new(
        n,
        |k: int| Feedback { ecn: bits_be(bytes, 65, 2) as u8, seq: ((base + k) % 0x10000) as u16, ts: 0 },
    ));
}

/// Sum of the first `k` of the `w`-bit fields that follow each other from bit `start`,
/// each taken modulo `m`.
pub open spec fn field_sum(bytes: Seq<u8>, start: nat, w: nat, m: nat, k: nat) -> nat
    decreases k,
{
    if k == 0 {
        0
    } else {
        field_sum(bytes, start, w, m, (k - 1) as nat) + bits_be(bytes, (start + w * (k - 1)) as nat, w) % m
    }
}

proof fn lemma_uniform_deltas(bytes: Seq<u8>, items: Seq<Feedback>, start: nat, e: u8, k: nat)
    requires
        k <= items.len(),
        forall|j: int| 0 <= j < items.len() ==> #[trigger] items[j].ecn == e,
    ensures
        deltas_bits(items, k) == delta_bits(e) * k,
        delta_sum(bytes, items, start, k) == if e == 1 || e == 2 {
            field_sum(bytes, start, delta_bits(e), 256, k)
        } else {
            0
        },
    decreases k,
{
    if k > 0 {
        lemma_uniform_deltas(bytes, items, start, e, (k - 1) as nat);
        assert(items[k - 1].ecn == e);
        assert(delta_bits(e) * (k - 1) + delta_bits(e) == delta_bits(e) * k) by (nonlinear_arith);
        let p = (start + delta_bits(e) * (k - 1)) as nat;
        if e == 1 {
            lemma_bits_be_bound(bytes, p, 8);
            vstd::arithmetic::power2::lemma2_to64();
            vstd::arithmetic::div_mod::lemma_small_mod(bits_be(bytes, p, 8), 256);
        }
    }
}

/// A report of n >= 1 statuses made of one run chunk with symbol 1 or 2 (run length at
/// least n) right after the header: each status has its receive delta right after the
/// chunk, in order, one byte wide for symbol 1 and two bytes wide for symbol 2 (of which
/// the low byte counts); status k is received at the reference time plus 250 microseconds
/// for every unit of the deltas 0 to k, in whole milliseconds; the report takes
/// 80 + n * (delta width) bits, and fails when the deltas are cut off.
pub proof fn lemma_report_run_times(bytes: Seq<u8>, last: Option<usize>)
    requires
        bit_len(bytes) >= 80,
        !(last matches Some(l) && l as nat == bits_be(bytes, 0, 16)),
        bits_be(bytes, 64, 1) == 0,
        1 <= bits_be(bytes, 16, 16) <= bits_be(bytes, 67, 13),
        bits_be(bytes, 65, 2) == 1 || bits_be(bytes, 65, 2) == 2,
    ensures
        ({
            let base = bits_be(bytes, 0, 16);
            let n = bits_be(bytes, 16, 16);
            let e = bits_be(bytes, 65, 2);
            let w: nat = if e == 1 { 8 } else { 16 };
            let r = bits_be(bytes, 32, 24) * 64000000;
            twcc_feedback(bytes, last) == if 80 + n * w <= bit_len(bytes) {
                Ok::<(Seq<Feedback>, u64), TwccError>(
                    (
                        Seq::new(
                            n,
                            |k: int|
                                Feedback {
                                    ecn: e as u8,
                                    seq: ((base + k) % 0x10000) as u16,
                                    ts: ((r + 250000 * field_sum(bytes, 80, w, 256, (k + 1) as nat)) / 1000) as u64,
                                },
                        ),
                        ((80 + n * w) / 8) as u64,
                    ),
                )
            } else {
                Err(TwccError::NotEnoughData)
            }
        }),
{
    let base = bits_be(bytes, 0, 16);
    let n = bits_be(bytes, 16, 16);
    let e = bits_be(bytes, 65, 2);
    let w: nat = if e == 1 { 8 } else { 16 };
    let r = bits_be(bytes, 32, 24) * 64000000;
    lemma_report_one_run(bytes, last);
    let items = Seq::new(
        n,
        |k: int| Feedback { ecn: e as u8, seq: ((base + k) % 0x10000) as u16, ts: 0 },
    );
    lemma_uniform_deltas(bytes, items, 80, e as u8, n);
    assert(delta_bits(e as u8) == w);
    if 80 + n * w <= bit_len(bytes) {
        let out = stamped(bytes, items, 80, r);
        let want = Seq::new(
            n,
            |k: int|
                Feedback {
                    ecn: e as u8,
                    seq: ((base + k) % 0x10000) as u16,
                    ts: ((r + 250000 * field_sum(bytes, 80, w, 256, (k + 1) as nat)) / 1000) as u64,
                },
        );
        assert forall|k: int| 0 <= k < n implies out[k] == want[k] by {
            lemma_uniform_deltas(bytes, items, 80, e as u8, (k + 1) as nat);
        }
        assert(out =~= want);
    }
}

/// A report of n >= 1 statuses made of one run chunk with symbol 0 or 3 (run length at
/// least n) right after the header carries no receive deltas and takes 10 bytes: with
/// symbol 0 no status has a time; with symbol 3 every status gets the reference time, in
/// milliseconds.
pub proof fn lemma_report_run_without_deltas(bytes: Seq<u8>, last: Option<usize>)
    requires
        bit_len(bytes) >= 80,
        !(last matches Some(l) && l as nat == bits_be(bytes, 0, 16)),
        bits_be(bytes, 64, 1) == 0,
        1 <= bits_be(bytes, 16, 16) <= bits_be(bytes, 67, 13),
        bits_be(bytes, 65, 2) == 0 || bits_be(bytes, 65, 2) == 3,
    ensures
        ({
            let base = bits_be(bytes, 0, 16);
            let n = bits_be(bytes, 16, 16);
            let e = bits_be(bytes, 65, 2);
            let r = bits_be(bytes, 32, 24) * 64000000;
            twcc_feedback(bytes, last) == Ok::<(Seq<Feedback>, u64), TwccError>(
                (
                    Seq::new(
                        n,
                        |k: int|
                            Feedback {
                                ecn: e as u8,
                                seq: ((base + k) % 0x10000) as u16,
                                ts: if e == 0 { 0 } else { (r / 1000) as u64 },
                            },
                    ),
                    10,
                ),
            )
        }),
{
    let base = bits_be(bytes, 0, 16);
    let n = bits_be(bytes, 16, 16);
    let e = bits_be(bytes, 65, 2);
    let r = bits_be(bytes, 32, 24) * 64000000;
    lemma_report_one_run(bytes, last);
    let items = Seq::new(
        n,
        |k: int| Feedback { ecn: e as u8, seq: ((base + k) % 0x10000) as u16, ts: 0 },
    );
    lemma_uniform_deltas(bytes, items, 80, e as u8, n);
    let out = stamped(bytes, items, 80, r);
    let want = Seq::new(
        n,
        |k: int|
            Feedback {
                ecn: e as u8,
                seq: ((base + k) % 0x10000) as u16,
                ts: if e == 0 { 0 } else { (r / 1000) as u64 },
            },
    );
    assert forall|k: int| 0 <= k < n implies out[k] == want[k] by {
        lemma_uniform_deltas(bytes, items, 80, e as u8, (k + 1) as nat);
    }
    assert(out =~= want);
}

} // verus!
