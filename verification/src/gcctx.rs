//! The feedback format read by the GCC sender element: a whole RTCP
//! transport-wide feedback packet (common header, sender and media SSRC,
//! base sequence number, status count, reference time, feedback count),
//! followed by `feedback count` packet chunks and the receive deltas.

use crate::bitstream::{
    bit_len, bits_be, lemma_bits_be_bound, position, read_u16, read_u32, read_u8, reader_bytes,
    reader_length, reader_new, reader_offset, reader_position,
};
pub use crate::feedback::Feedback;
use crate::nadatx::{after_prefix, delta_bits, deltas_bits, lemma_deltas_bits_monotone};
use bitreader::BitReader;
use vstd::prelude::*;

verus! {

/// The packet chunk at bit `pos`: the bit index after it and its statuses, all of them
/// for packet `base`. A chunk whose first bit is 0 holds a two-bit symbol and a 13-bit
/// run length; one whose first bit is 1 holds a symbol size bit and then fourteen 1-bit
/// symbols (size bit 0) or six 2-bit symbols (size bit 1).
pub open spec fn gcc_chunk(bytes: Seq<u8>, base: u16, pos: nat) -> Option<(nat, Seq<Feedback>)> {
    if pos + 2 > bit_len(bytes) {
        None
    } else if bits_be(bytes, pos, 1) == 0 {
        if pos + 16 > bit_len(bytes) {
            None
        } else {
            let ecn = bits_be(bytes, pos + 1, 2) as u8;
            let cnt = bits_be(bytes, pos + 3, 13);
            Some((pos + 16, Seq::new(cnt, |k: int| Feedback { ecn, seq: base, ts: 0 })))
        }
    } else if bits_be(bytes, pos + 1, 1) == 0 {
        if pos + 16 > bit_len(bytes) {
            None
        } else {
            Some(
                (
                    pos + 16,
                    Seq::new(
                        14,
                        |k: int| Feedback { ecn: bits_be(bytes, (pos + 2 + k) as nat, 1) as u8, seq: base, ts: 0 },
                    ),
                ),
            )
        }
    } else {
        if pos + 14 > bit_len(bytes) {
            None
        } else {
            Some(
                (
                    pos + 14,
                    Seq::new(
                        6,
                        |k: int|
                            Feedback { ecn: bits_be(bytes, (pos + 2 + 2 * k) as nat, 2) as u8, seq: base, ts: 0 },
                    ),
                ),
            )
        }
    }
}

/// `count` packet chunks from bit `pos` on: the bit index after them and their statuses.
pub open spec fn gcc_chunks(bytes: Seq<u8>, base: u16, pos: nat, count: nat) -> Option<
    (nat, Seq<Feedback>),
>
    decreases count,
{
    if count == 0 {
        Some((pos, Seq::empty()))
    } else {
        match gcc_chunk(bytes, base, pos) {
            None => None,
            Some((next, items)) => after_prefix(items, gcc_chunks(bytes, base, next, (count - 1) as nat)),
        }
    }
}

/// The receive delta of status `k`, in milliseconds (a quarter of the 250-microsecond
/// count, rounded down), when the deltas start at bit `start`.
pub open spec fn gcc_delta_at(bytes: Seq<u8>, items: Seq<Feedback>, start: nat, k: nat) -> nat {
    let p = start + deltas_bits(items, k);
    let ecn = items[k as int].ecn;
    if ecn == 1 {
        bits_be(bytes, p, 8) / 4
    } else if ecn == 2 {
        bits_be(bytes, p, 16) / 4
    } else {
        0
    }
}

/// Sum of the receive deltas of the first `k` statuses.
pub open spec fn gcc_delta_sum(bytes: Seq<u8>, items: Seq<Feedback>, start: nat, k: nat) -> nat
    decreases k,
{
    if k == 0 {
        0
    } else {
        gcc_delta_sum(bytes, items, start, (k - 1) as nat) + gcc_delta_at(bytes, items, start, (k - 1) as nat)
    }
}

/// The statuses with symbol 1 or 2 get the reference time plus the deltas up to and
/// including their own; the others keep no time.
pub open spec fn gcc_stamped(bytes: Seq<u8>, items: Seq<Feedback>, start: nat, reference: nat) -> Seq<
    Feedback,
> {
    Seq::new(
        items.len(),
        |k: int|
            if items[k].ecn == 1 || items[k].ecn == 2 {
                Feedback {
                    ecn: items[k].ecn,
                    seq: items[k].seq,
                    ts: (reference + gcc_delta_sum(bytes, items, start, (k + 1) as nat)) as u64,
                }
            } else {
                items[k]
            },
    )
}

/// What a whole RTCP feedback packet decodes to: the stamped statuses and the number of
/// whole bytes read. None when the packet is shorter than its fields, its version is
/// not 2, or the receive time leaves 32 bits.
pub open spec fn gcc_report(bytes: Seq<u8>) -> Option<(Seq<Feedback>, u64)> {
    if bit_len(bytes) < 160 || bits_be(bytes, 0, 2) != 2 {
        None
    } else {
        let base = bits_be(bytes, 96, 16) as u16;
        let reference = bits_be(bytes, 128, 24) * 64;
        let count = bits_be(bytes, 152, 8);
        match gcc_chunks(bytes, base, 160, count) {
            None => None,
            Some((pos, items)) => gcc_timed(bytes, items, pos, reference),
        }
    }
}

/// The packet once its statuses `items` are known and their receive deltas start at bit
/// `pos`: the stamped statuses and the number of whole bytes read; None when the deltas
/// are cut off or the receive time leaves 32 bits.
pub open spec fn gcc_timed(bytes: Seq<u8>, items: Seq<Feedback>, pos: nat, reference: nat) -> Option<
    (Seq<Feedback>, u64),
> {
    let end = pos + deltas_bits(items, items.len());
    if end > bit_len(bytes) || reference + gcc_delta_sum(bytes, items, pos, items.len()) > u32::MAX {
        None
    } else {
        Some((gcc_stamped(bytes, items, pos, reference), (end / 8) as u64))
    }
}

proof fn lemma_delta_sum_monotone(bytes: Seq<u8>, items: Seq<Feedback>, start: nat, j: nat, k: nat)
    requires
        j <= k,
    ensures
        gcc_delta_sum(bytes, items, start, j) <= gcc_delta_sum(bytes, items, start, k),
    decreases k,
{
    if j < k {
        lemma_delta_sum_monotone(bytes, items, start, j, (k - 1) as nat);
    }
}

/// Reads the packet chunk at the reader's position and appends its statuses.
#[verifier::loop_isolation(false)]
fn read_chunk(reader: &mut BitReader, base_seq: u16, ecn_list: &mut Vec<Feedback>)
    requires
        reader_offset(*old(reader)) == 0,
        reader_length(*old(reader)) == bit_len(reader_bytes(*old(reader))),
        reader_position(*old(reader)) <= reader_length(*old(reader)),
        bit_len(reader_bytes(*old(reader))) + 64 <= u64::MAX,
        gcc_chunk(reader_bytes(*old(reader)), base_seq, reader_position(*old(reader))) is Some,
        old(ecn_list)@.len() + 0x2000 <= usize::MAX,
    ensures
        reader_bytes(*final(reader)) == reader_bytes(*old(reader)),
        reader_offset(*final(reader)) == 0,
        reader_length(*final(reader)) == reader_length(*old(reader)),
        reader_position(*final(reader)) <= reader_length(*final(reader)),
        gcc_chunk(reader_bytes(*old(reader)), base_seq, reader_position(*old(reader))) matches Some(
            (next, items),
        ) && reader_position(*final(reader)) == next && final(ecn_list)@ == old(ecn_list)@ + items,
{
    let ghost bytes = reader_bytes(*reader);
    let ghost pos0 = reader_position(*reader);
    let ghost list0 = ecn_list@;
    let pkt_type = match read_u8(reader, 1) {
        Ok(v) => v,
        Err(_) => {
            assert(false);
            0
        },
    };
    if pkt_type == 0 {
        let ecn = match read_u8(reader, 2) {
            Ok(v) => v,
            Err(_) => {
                assert(false);
                0
            },
        };
        let cnt = match read_u16(reader, 13) {
            Ok(v) => v,
            Err(_) => {
                assert(false);
                0
            },
        };
        proof {
            lemma_bits_be_bound(bytes, pos0 + 3, 13);
            vstd::arithmetic::power2::lemma2_to64();
        }
        let ghost f = |k: int| Feedback { ecn, seq: base_seq, ts: 0 };
        let mut i: u16 = 0;
        while i < cnt
            invariant
                i <= cnt,
                ecn_list@ == list0 + Seq::new(i as nat, f),
            decreases cnt - i,
        {
            ecn_list.push(Feedback::new(ecn, base_seq));
            assert(ecn_list@ =~= list0 + Seq::new((i + 1) as nat, f));
            i = i + 1;
        }
    } else {
        let sym_size = match read_u8(reader, 1) {
            Ok(v) => v,
            Err(_) => {
                assert(false);
                0
            },
        };
        if sym_size == 0 {
            let ghost f = |k: int| Feedback { ecn: bits_be(bytes, (pos0 + 2 + k) as nat, 1) as u8, seq: base_seq, ts: 0 };
            let mut i: u16 = 0;
            while i < 14
                invariant
                    reader_bytes(*reader) == bytes,
                    reader_offset(*reader) == 0,
                    reader_length(*reader) == bit_len(bytes),
                    i <= 14,
                    reader_position(*reader) == pos0 + 2 + i,
                    ecn_list@ == list0 + Seq::new(i as nat, f),
                decreases 14 - i,
            {
                let sym = match read_u8(reader, 1) {
                    Ok(v) => v,
                    Err(_) => {
                        assert(false);
                        0
                    },
                };
                ecn_list.push(Feedback::new(sym, base_seq));
                assert(ecn_list@ =~= list0 + Seq::new((i + 1) as nat, f));
                i = i + 1;
            }
        } else {
            let ghost f = |k: int|
                Feedback { ecn: bits_be(bytes, (pos0 + 2 + 2 * k) as nat, 2) as u8, seq: base_seq, ts: 0 };
            let mut i: u16 = 1;
            while i < 7
                invariant
                    reader_bytes(*reader) == bytes,
                    reader_offset(*reader) == 0,
                    reader_length(*reader) == bit_len(bytes),
                    1 <= i <= 7,
                    reader_position(*reader) == pos0 + 2 + 2 * (i - 1),
                    ecn_list@ == list0 + Seq::new((i - 1) as nat, f),
                decreases 7 - i,
            {
                let sym = match read_u8(reader, 2) {
                    Ok(v) => v,
                    Err(_) => {
                        assert(false);
                        0
                    },
                };
                ecn_list.push(Feedback::new(sym, base_seq));
                assert(ecn_list@ =~= list0 + Seq::new(i as nat, f));
                i = i + 1;
            }
        }
    }
}

/// Reads the receive deltas of the statuses with symbol 1 or 2, which follow at the
/// reader's position, and gives those statuses their receive times.
#[verifier::loop_isolation(false)]
fn read_deltas(reader: &mut BitReader, ecn_list: &mut Vec<Feedback>, ref_time: u32)
    requires
        reader_offset(*old(reader)) == 0,
        reader_length(*old(reader)) == bit_len(reader_bytes(*old(reader))),
        reader_position(*old(reader)) <= reader_length(*old(reader)),
        bit_len(reader_bytes(*old(reader))) + 64 <= u64::MAX,
        reader_position(*old(reader)) + deltas_bits(old(ecn_list)@, old(ecn_list)@.len())
            <= bit_len(reader_bytes(*old(reader))),
        ref_time + gcc_delta_sum(
            reader_bytes(*old(reader)),
            old(ecn_list)@,
            reader_position(*old(reader)),
            old(ecn_list)@.len(),
        ) <= u32::MAX,
    ensures
        reader_bytes(*final(reader)) == reader_bytes(*old(reader)),
        reader_position(*final(reader)) == reader_position(*old(reader)) + deltas_bits(
            old(ecn_list)@,
            old(ecn_list)@.len(),
        ),
        final(ecn_list)@ == gcc_stamped(
            reader_bytes(*old(reader)),
            old(ecn_list)@,
            reader_position(*old(reader)),
            ref_time as nat,
        ),
{
    let ghost bytes = reader_bytes(*reader);
    let ghost items = ecn_list@;
    let ghost start = reader_position(*reader);
    let ghost out = gcc_stamped(bytes, items, start, ref_time as nat);
    let len = ecn_list.len();
    let mut cur_time: u32 = ref_time;
    let mut i: usize = 0;
    while i < len
        invariant
            reader_bytes(*reader) == bytes,
            reader_offset(*reader) == 0,
            reader_length(*reader) == bit_len(bytes),
            ecn_list@.len() == items.len(),
            len == items.len(),
            i <= len,
            reader_position(*reader) == start + deltas_bits(items, i as nat),
            cur_time as nat == ref_time + gcc_delta_sum(bytes, items, start, i as nat),
            forall|k: int| 0 <= k < i ==> ecn_list@[k] == out[k],
            forall|k: int| i <= k < len ==> ecn_list@[k] == items[k],
        decreases len - i,
    {
        proof {
            lemma_deltas_bits_monotone(items, (i + 1) as nat, len as nat);
            lemma_delta_sum_monotone(bytes, items, start, (i + 1) as nat, len as nat);
        }
        let mut x = ecn_list[i];
        if x.ecn == 1 || x.ecn == 2 {
            if x.ecn == 1 {
                let mut offset = match read_u8(reader, 8) {
                    Ok(v) => v,
                    Err(_) => {
                        assert(false);
                        0
                    },
                };
                assert(offset >> 2 == offset / 4) by (bit_vector);
                offset = offset >> 2;
                cur_time = cur_time + offset as u32;
                x.ts = cur_time as u64;
            } else {
                let mut offset = match read_u16(reader, 16) {
                    Ok(v) => v,
                    Err(_) => {
                        assert(false);
                        0
                    },
                };
                assert(offset >> 2 == offset / 4) by (bit_vector);
                offset = offset >> 2;
                cur_time = cur_time + offset as u32;
                x.ts = cur_time as u64;
            }
            ecn_list.set(i, x);
        }
        i = i + 1;
    }
    assert(ecn_list@ =~= out);
}

/// Reads a whole RTCP transport-wide feedback packet: its statuses with their receive
/// times, and the number of whole bytes read.
pub fn parse_twcc(data: &[u8]) -> (res: (Vec<Feedback>, u64))
    requires
        bit_len(data@) + 64 <= u64::MAX,
        gcc_report(data@) is Some,
    ensures
        gcc_report(data@) == Some((res.0@, res.1)),
{
    let ghost bytes = data@;
    let mut reader = reader_new(data);
    let _v = match read_u8(&mut reader, 2) {
        Ok(v) => v,
        Err(_) => {
            assert(false);
            0
        },
    };
    let _padding = match read_u8(&mut reader, 1) {
        Ok(v) => v,
        Err(_) => {
            assert(false);
            0
        },
    };
    let _fmt = match read_u8(&mut reader, 5) {
        Ok(v) => v,
        Err(_) => {
            assert(false);
            0
        },
    };
    let _pt = match read_u8(&mut reader, 8) {
        Ok(v) => v,
        Err(_) => {
            assert(false);
            0
        },
    };
    let _length = match read_u16(&mut reader, 16) {
        Ok(v) => v,
        Err(_) => {
            assert(false);
            0
        },
    };
    let _ssrc_send = match read_u32(&mut reader, 32) {
        Ok(v) => v,
        Err(_) => {
            assert(false);
            0
        },
    };
    let _ssrc_media = match read_u32(&mut reader, 32) {
        Ok(v) => v,
        Err(_) => {
            assert(false);
            0
        },
    };
    let base_seq = match read_u16(&mut reader, 16) {
        Ok(v) => v,
        Err(_) => {
            assert(false);
            0
        },
    };
    let _packet_status = match read_u16(&mut reader, 16) {
        Ok(v) => v,
        Err(_) => {
            assert(false);
            0
        },
    };
    let ref_bits = match read_u32(&mut reader, 24) {
        Ok(v) => v,
        Err(_) => {
            assert(false);
            0
        },
    };
    proof {
        lemma_bits_be_bound(bytes, 128, 24);
        vstd::arithmetic::power2::lemma2_to64();
        assert(ref_bits < 0x100_0000);
        assert(ref_bits < 0x100_0000 ==> ref_bits << 6u32 == ref_bits * 64) by (bit_vector);
    }
    let ref_time = ref_bits << 6;
    let fb_pkt_count = match read_u32(&mut reader, 8) {
        Ok(v) => v,
        Err(_) => {
            assert(false);
            0
        },
    };
    proof {
        lemma_bits_be_bound(bytes, 152, 8);
    }
    let ghost full = gcc_chunks(bytes, base_seq, 160, fb_pkt_count as nat);
    let mut ecn_list: Vec<Feedback> = Vec::with_capacity(fb_pkt_count as usize);
    let mut c: u32 = 0;
    while c < fb_pkt_count
        invariant
            bytes == data@,
            reader_bytes(reader) == bytes,
            reader_offset(reader) == 0,
            reader_length(reader) == bit_len(bytes),
            reader_position(reader) <= bit_len(bytes),
            bit_len(bytes) + 64 <= u64::MAX,
            c <= fb_pkt_count,
            fb_pkt_count < 256,
            ecn_list@.len() <= c * 0x2000,
            full == gcc_chunks(bytes, base_seq, 160, fb_pkt_count as nat),
            full is Some,
            full == after_prefix(
                ecn_list@,
                gcc_chunks(bytes, base_seq, reader_position(reader), (fb_pkt_count - c) as nat),
            ),
        decreases fb_pkt_count - c,
    {
        let ghost pos0 = reader_position(reader);
        let ghost list0 = ecn_list@;
        let ghost rest = gcc_chunks(bytes, base_seq, pos0, (fb_pkt_count - c) as nat);
        assert(rest is Some);
        assert(gcc_chunk(bytes, base_seq, pos0) is Some);
        let ghost items = gcc_chunk(bytes, base_seq, pos0).unwrap().1;
        proof {
            let chunk_len = items.len();
            if bits_be(bytes, pos0, 1) == 0 {
                lemma_bits_be_bound(bytes, pos0 + 3, 13);
                vstd::arithmetic::power2::lemma2_to64();
            }
            assert(chunk_len <= 0x2000);
            assert(list0.len() + 0x2000 <= (c + 1) * 0x2000) by (nonlinear_arith)
                requires
                    list0.len() <= c * 0x2000,
            ;
        }
        read_chunk(&mut reader, base_seq, &mut ecn_list);
        proof {
            let next = reader_position(reader);
            let tail = gcc_chunks(bytes, base_seq, next, (fb_pkt_count - c - 1) as nat);
            assert(rest == after_prefix(items, tail));
            if let Some((e, r)) = tail {
                assert(list0 + (items + r) =~= (list0 + items) + r);
            }
        }
        c = c + 1;
    }
    proof {
        vstd::arithmetic::power2::lemma2_to64();
    }
    read_deltas(&mut reader, &mut ecn_list, ref_time);
    let p = position(&reader);
    assert(p >> 3 == p / 8) by (bit_vector);
    (ecn_list, p >> 3)
}

/// Receive times never go backwards: of two timed statuses (symbol 1 or 2) in a decoded
/// packet, the later one has the later or equal time.
pub proof fn lemma_gcc_times_ordered(bytes: Seq<u8>, j: int, k: int)
    requires
        gcc_report(bytes) is Some,
        0 <= j < k < gcc_report(bytes).unwrap().0.len(),
        gcc_report(bytes).unwrap().0[j].ecn == 1 || gcc_report(bytes).unwrap().0[j].ecn == 2,
        gcc_report(bytes).unwrap().0[k].ecn == 1 || gcc_report(bytes).unwrap().0[k].ecn == 2,
    ensures
        gcc_report(bytes).unwrap().0[j].ts <= gcc_report(bytes).unwrap().0[k].ts,
{
    let base = bits_be(bytes, 96, 16) as u16;
    let count = bits_be(bytes, 152, 8);
    let (pos, items) = gcc_chunks(bytes, base, 160, count).unwrap();
    lemma_delta_sum_monotone(bytes, items, pos, (j + 1) as nat, (k + 1) as nat);
    lemma_delta_sum_monotone(bytes, items, pos, (k + 1) as nat, items.len());
}

proof fn lemma_gcc_single_chunk(bytes: Seq<u8>)
    requires
        bit_len(bytes) >= 160,
        bits_be(bytes, 0, 2) == 2,
        bits_be(bytes, 152, 8) == 1,
    ensures
        gcc_report(bytes) == match gcc_chunk(bytes, bits_be(bytes, 96, 16) as u16, 160) {
            None => None,
            Some((next, items)) => gcc_timed(bytes, items, next, bits_be(bytes, 128, 24) * 64),
        },
{
    let base = bits_be(bytes, 96, 16) as u16;
    if let Some((next, items)) = gcc_chunk(bytes, base, 160) {
        assert(gcc_chunks(bytes, base, next, 0) == Some((next, Seq::<Feedback>::empty())));
        assert(items + Seq::<Feedback>::empty() =~= items);
    }
}

/// A packet with one packet chunk, a run (first bit 0): it holds exactly as many statuses
/// as the 13-bit run length, every one with the run's 2-bit symbol (whatever it is, 0
/// included) and the base sequence number; the receive deltas start at bit 176.
pub proof fn lemma_gcc_one_run(bytes: Seq<u8>)
    requires
        bit_len(bytes) >= 176,
        bits_be(bytes, 0, 2) == 2,
        bits_be(bytes, 152, 8) == 1,
        bits_be(bytes, 160, 1) == 0,
    ensures
        gcc_report(bytes) == gcc_timed(
            bytes,
            Seq::new(
                bits_be(bytes, 163, 13),
                |k: int| Feedback { ecn: bits_be(bytes, 161, 2) as u8, seq: bits_be(bytes, 96, 16) as u16, ts: 0 },
            ),
            176,
            bits_be(bytes, 128, 24) * 64,
        ),
{
    lemma_gcc_single_chunk(bytes);
    let items = gcc_chunk(bytes, bits_be(bytes, 96, 16) as u16, 160).unwrap().1;
    assert(items =~= Seq::new(
        bits_be(bytes, 163, 13),
        |k: int| Feedback { ecn: bits_be(bytes, 161, 2) as u8, seq: bits_be(bytes, 96, 16) as u16, ts: 0 },
    ));
}

/// A packet with one packet chunk, a status vector with 1-bit symbols (first bits 1, 0):
/// it holds fourteen statuses, the k-th with the bit 162 + k as its symbol, all with the
/// base sequence number; the receive deltas start at bit 176.
pub proof fn lemma_gcc_one_bit_vector(bytes: Seq<u8>)
    requires
        bit_len(bytes) >= 176,
        bits_be(bytes, 0, 2) == 2,
        bits_be(bytes, 152, 8) == 1,
        bits_be(bytes, 160, 1) == 1,
        bits_be(bytes, 161, 1) == 0,
    ensures
        gcc_report(bytes) == gcc_timed(
            bytes,
            Seq::new(
                14,
                |k: int| Feedback { ecn: bits_be(bytes, (162 + k) as nat, 1) as u8, seq: bits_be(bytes, 96, 16) as u16, ts: 0 },
            ),
            176,
            bits_be(bytes, 128, 24) * 64,
        ),
{
    lemma_gcc_single_chunk(bytes);
    let items = gcc_chunk(bytes, bits_be(bytes, 96, 16) as u16, 160).unwrap().1;
    assert(items =~= Seq::new(
        14,
        |k: int| Feedback { ecn: bits_be(bytes, (162 + k) as nat, 1) as u8, seq: bits_be(bytes, 96, 16) as u16, ts: 0 },
    ));
}

/// A packet with one packet chunk, a status vector with 2-bit symbols (first bits 1, 1):
/// it holds six statuses, the k-th with the two bits at 162 + 2k as its symbol, all with
/// the base sequence number; the chunk takes 14 bits, so the deltas start at bit 174.
pub proof fn lemma_gcc_two_bit_vector(bytes: Seq<u8>)
    requires
        bit_len(bytes) >= 176,
        bits_be(bytes, 0, 2) == 2,
        bits_be(bytes, 152, 8) == 1,
        bits_be(bytes, 160, 1) == 1,
        bits_be(bytes, 161, 1) == 1,
    ensures
        gcc_report(bytes) == gcc_timed(
            bytes,
            Seq::new(
                6,
                |k: int| Feedback { ecn: bits_be(bytes, (162 + 2 * k) as nat, 2) as u8, seq: bits_be(bytes, 96, 16) as u16, ts: 0 },
            ),
            174,
            bits_be(bytes, 128, 24) * 64,
        ),
{
    lemma_gcc_single_chunk(bytes);
    let items = gcc_chunk(bytes, bits_be(bytes, 96, 16) as u16, 160).unwrap().1;
    assert(items =~= Seq::new(
        6,
        |k: int| Feedback { ecn: bits_be(bytes, (162 + 2 * k) as nat, 2) as u8, seq: bits_be(bytes, 96, 16) as u16, ts: 0 },
    ));
}

/// Sum of the quarters (rounded down) of the first `k` of the `w`-bit fields that follow
/// each other from bit `start`.
pub open spec fn quarter_sum(bytes: Seq<u8>, start: nat, w: nat, k: nat) -> nat
    decreases k,
{
    if k == 0 {
        0
    } else {
        quarter_sum(bytes, start, w, (k - 1) as nat) + bits_be(bytes, (start + w * (k - 1)) as nat, w) / 4
    }
}

proof fn lemma_gcc_uniform_deltas(bytes: Seq<u8>, items: Seq<Feedback>, start: nat, e: u8, k: nat)
    requires
        k <= items.len(),
        forall|j: int| 0 <= j < items.len() ==> #[trigger] items[j].ecn == e,
    ensures
        deltas_bits(items, k) == delta_bits(e) * k,
        gcc_delta_sum(bytes, items, start, k) == if e == 1 || e == 2 {
            quarter_sum(bytes, start, delta_bits(e), k)
        } else {
            0
        },
    decreases k,
{
    if k > 0 {
        lemma_gcc_uniform_deltas(bytes, items, start, e, (k - 1) as nat);
        assert(items[k - 1].ecn == e);
        assert(delta_bits(e) * (k - 1) + delta_bits(e) == delta_bits(e) * k) by (nonlinear_arith);
    }
}

/// A packet with one packet chunk, a run with symbol 1 or 2: each status has its receive
/// delta right after the chunk, in order, one byte wide for symbol 1 and two bytes wide
/// for symbol 2; status k is received at the reference time plus the quarters (rounded
/// down) of the deltas 0 to k, in milliseconds; the packet takes 176 + n * (delta width)
/// bits. There is no result when the deltas are cut off or a time leaves 32 bits.
pub proof fn lemma_gcc_run_times(bytes: Seq<u8>)
    requires
        bit_len(bytes) >= 176,
        bits_be(bytes, 0, 2) == 2,
        bits_be(bytes, 152, 8) == 1,
        bits_be(bytes, 160, 1) == 0,
        bits_be(bytes, 161, 2) == 1 || bits_be(bytes, 161, 2) == 2,
    ensures
        ({
            let n = bits_be(bytes, 163, 13);
            let e = bits_be(bytes, 161, 2);
            let w: nat = if e == 1 { 8 } else { 16 };
            let r = bits_be(bytes, 128, 24) * 64;
            gcc_report(bytes) == if 176 + n * w <= bit_len(bytes) && r + quarter_sum(bytes, 176, w, n) <= u32::MAX {
                Some(
                    (
                        Seq::new(
                            n,
                            |k: int|
                                Feedback {
                                    ecn: e as u8,
                                    seq: bits_be(bytes, 96, 16) as u16,
                                    ts: (r + quarter_sum(bytes, 176, w, (k + 1) as nat)) as u64,
                                },
                        ),
                        ((176 + n * w) / 8) as u64,
                    ),
                )
            } else {
                None
            }
        }),
{
    let n = bits_be(bytes, 163, 13);
    let e = bits_be(bytes, 161, 2);
    let w: nat = if e == 1 { 8 } else { 16 };
    let r = bits_be(bytes, 128, 24) * 64;
    lemma_gcc_one_run(bytes);
    let items = Seq::new(
        n,
        |k: int| Feedback { ecn: e as u8, seq: bits_be(bytes, 96, 16) as u16, ts: 0 },
    );
    lemma_gcc_uniform_deltas(bytes, items, 176, e as u8, n);
    assert(delta_bits(e as u8) == w);
    if 176 + n * w <= bit_len(bytes) && r + quarter_sum(bytes, 176, w, n) <= u32::MAX {
        let out = gcc_stamped(bytes, items, 176, r);
        let want = Seq::new(
            n,
            |k: int|
                Feedback {
                    ecn: e as u8,
                    seq: bits_be(bytes, 96, 16) as u16,
                    ts: (r + quarter_sum(bytes, 176, w, (k + 1) as nat)) as u64,
                },
        );
        assert forall|k: int| 0 <= k < n implies out[k] == want[k] by {
            lemma_gcc_uniform_deltas(bytes, items, 176, e as u8, (k + 1) as nat);
        }
        assert(out =~= want);
    }
}

/// A packet with one packet chunk, a run with symbol 0 or 3: its statuses carry no
/// receive time, no delta follows, and the packet takes 22 bytes.
pub proof fn lemma_gcc_run_without_deltas(bytes: Seq<u8>)
    requires
        bit_len(bytes) >= 176,
        bits_be(bytes, 0, 2) == 2,
        bits_be(bytes, 152, 8) == 1,
        bits_be(bytes, 160, 1) == 0,
        bits_be(bytes, 161, 2) == 0 || bits_be(bytes, 161, 2) == 3,
        bits_be(bytes, 128, 24) * 64 <= u32::MAX,
    ensures
        gcc_report(bytes) == Some(
            (
                Seq::new(
                    bits_be(bytes, 163, 13),
                    |k: int| Feedback { ecn: bits_be(bytes, 161, 2) as u8, seq: bits_be(bytes, 96, 16) as u16, ts: 0 },
                ),
                22u64,
            ),
        ),
{
    let n = bits_be(bytes, 163, 13);
    let e = bits_be(bytes, 161, 2);
    lemma_gcc_one_run(bytes);
    let items = Seq::new(
        n,
        |k: int| Feedback { ecn: e as u8, seq: bits_be(bytes, 96, 16) as u16, ts: 0 },
    );
    lemma_gcc_uniform_deltas(bytes, items, 176, e as u8, n);
    assert(delta_bits(e as u8) == 0);
    assert(deltas_bits(items, n) == 0);
    assert(gcc_delta_sum(bytes, items, 176, n) == 0);
    assert(gcc_stamped(bytes, items, 176, bits_be(bytes, 128, 24) * 64) =~= items);
}

proof fn lemma_gcc_chunks_seq(bytes: Seq<u8>, base: u16, pos: nat, count: nat)
    ensures
        gcc_chunks(bytes, base, pos, count) matches Some((_, items)) ==> forall|k: int|
            0 <= k < items.len() ==> #[trigger] items[k].seq == base,
    decreases count,
{
    if count > 0 {
        if let Some((next, items)) = gcc_chunk(bytes, base, pos) {
            lemma_gcc_chunks_seq(bytes, base, next, (count - 1) as nat);
            if let Some((end, rest)) = gcc_chunks(bytes, base, next, (count - 1) as nat) {
                let all = items + rest;
                assert forall|k: int| 0 <= k < all.len() implies #[trigger] all[k].seq == base by {
                    if k >= items.len() {
                        assert(all[k] == rest[k - items.len()]);
                    }
                }
            }
        }
    }
}

/// Every status of a decoded packet, from any chunk, carries the packet's base sequence
/// number (bits 96 to 111).
pub proof fn lemma_gcc_all_base(bytes: Seq<u8>)
    requires
        gcc_report(bytes) is Some,
    ensures
        forall|k: int|
            0 <= k < gcc_report(bytes).unwrap().0.len() ==> #[trigger] gcc_report(bytes).unwrap().0[k].seq
                == bits_be(bytes, 96, 16) as u16,
{
    let base = bits_be(bytes, 96, 16) as u16;
    lemma_gcc_chunks_seq(bytes, base, 160, bits_be(bytes, 152, 8));
}

/// When the first packet chunk is a run, a decoded packet begins with as many statuses
/// as the run length, each with the run's 2-bit symbol.
pub proof fn lemma_gcc_first_run_prefix(bytes: Seq<u8>)
    requires
        gcc_report(bytes) is Some,
        bits_be(bytes, 152, 8) >= 1,
        bits_be(bytes, 160, 1) == 0,
    ensures
        gcc_report(bytes).unwrap().0.len() >= bits_be(bytes, 163, 13),
        forall|k: int|
            0 <= k < bits_be(bytes, 163, 13) ==> #[trigger] gcc_report(bytes).unwrap().0[k].ecn
                == bits_be(bytes, 161, 2) as u8,
{
    let base = bits_be(bytes, 96, 16) as u16;
    let count = bits_be(bytes, 152, 8);
    let (next, first) = gcc_chunk(bytes, base, 160).unwrap();
    let (end, rest) = gcc_chunks(bytes, base, next, (count - 1) as nat).unwrap();
    let all = first + rest;
    assert forall|k: int| 0 <= k < bits_be(bytes, 163, 13) implies #[trigger] all[k].ecn
        == bits_be(bytes, 161, 2) as u8 by {
        assert(all[k] == first[k]);
    }
}

} // verus!
