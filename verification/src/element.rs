//! The per-packet decisions of the sender elements: where a media packet stands in the
//! transport-wide numbering, what to do with a feedback packet, and whether a paced
//! packet is sent on.

use crate::bitstream::{bit_len, bits_be, lemma_bits_be_bound};
use crate::nadatx::{lemma_report_numbering, parse_twcc, twcc_feedback, Feedback, TwccError};
use std::collections::VecDeque;
use vstd::prelude::*;

verus! {

/// The transport-wide sequence number carried in bytes 1 and 2 (big-endian) of an RTP
/// header extension.
pub open spec fn ext_seq(ext: Seq<u8>) -> u16 {
    (ext[1] as nat * 256 + ext[2] as nat) as u16
}

/// How far sequence number `seq` lies after `start`, modulo 2^16.
pub open spec fn seq_offset(start: u16, seq: u16) -> u16 {
    ((seq - start) % 0x10000) as u16
}

/// The transport-wide sequence number of a media packet relative to the first packet
/// the element saw. `start` is that first packet's number, or 0 before any packet; `ext`
/// is the packet's header extension. Returns the new `start` and the relative number,
/// which counts modulo 2^16: the first packet sets `start` and is number 0.
pub fn transport_offset(start: u16, ext: &[u8]) -> (res: (u16, u16))
    requires
        ext@.len() >= 3,
    ensures
        start == 0 ==> res == (ext_seq(ext@), 0u16),
        start != 0 ==> res == (start, seq_offset(start, ext_seq(ext@))),
        start == 0 ==> res.0 as nat == ext@[1] as nat * 256 + ext@[2] as nat && res.1 == 0,
        start != 0 ==> res.0 == start && (start + res.1) % 0x10000 == ext@[1] as nat * 256 + ext@[2] as nat,
{
    let seq: u16 = (ext[1] as u16) * 256 + (ext[2] as u16);
    if start == 0 {
        (seq, 0)
    } else {
        let offset = seq.wrapping_sub(start);
        assert(offset == seq_offset(start, seq));
        (start, offset)
    }
}

/// What the element does with a feedback packet.
#[derive(Debug, PartialEq, Eq)]
pub enum RtcpAction {
    /// Hand each status to the congestion controller, remember `base` as the last
    /// report handled, and forward the packet.
    Apply { base: usize, feedback: Vec<Feedback>, bytes: u64 },
    /// The report was handled already, or holds no status: nothing to do.
    Skip,
    /// The report could not be read: it is reported and not forwarded.
    Malformed(TwccError),
}

/// Decides what to do with the feedback packet `data` when `last_base` is the base
/// sequence number of the last report handled.
pub fn handle_rtcp(data: &[u8], last_base: usize) -> (action: RtcpAction)
    requires
        bit_len(data@) + 64 <= u64::MAX,
    ensures
        match twcc_feedback(data@, Some(last_base)) {
            Ok((items, n)) => if items.len() > 0 {
                action matches RtcpAction::Apply { base, feedback, bytes } && base == items[0].seq as usize
                    && feedback@ == items && bytes == n
            } else {
                action == RtcpAction::Skip
            },
            Err(e) => action == RtcpAction::Malformed(e),
        },
{
    match parse_twcc(data, Some(last_base)) {
        Ok((data, count)) => {
            if data.len() > 0 {
                let base = data[0].seq as usize;
                RtcpAction::Apply { base, feedback: data, bytes: count }
            } else {
                RtcpAction::Skip
            }
        },
        Err(e) => RtcpAction::Malformed(e),
    }
}

/// What becomes of a packet that the pacer releases or discards.
#[derive(Debug, Clone, Copy, PartialEq, Eq)]
pub enum PushAction {
    /// Send it on the source pad.
    Push,
    /// The source pad is at end of stream: drop it.
    DropAtEos,
    /// The source pad is flushing: drop it.
    DropFlushing,
    /// The pacer discarded it: drop it.
    Discard,
}

/// Decides the fate of a packet leaving the pacer: `is_push` is 1 when the pacer sends
/// it; `eos` and `flushing` are the source pad's flags.
pub fn push_action(is_push: u8, eos: bool, flushing: bool) -> (action: PushAction)
    ensures
        is_push != 1 ==> action == PushAction::Discard,
        is_push == 1 && eos ==> action == PushAction::DropAtEos,
        is_push == 1 && !eos && flushing ==> action == PushAction::DropFlushing,
        is_push == 1 && !eos && !flushing ==> action == PushAction::Push,
{
    if is_push == 1 {
        if eos {
            PushAction::DropAtEos
        } else if flushing {
            PushAction::DropFlushing
        } else {
            PushAction::Push
        }
    } else {
        PushAction::Discard
    }
}

/// Takes every queued packet out of `queue`, oldest first.
pub fn drain_queue<T>(queue: &mut VecDeque<T>) -> (out: Vec<T>)
    ensures
        out@ == old(queue)@,
        final(queue)@.len() == 0,
{
    let ghost all = queue@;
    let mut out: Vec<T> = Vec::new();
    loop
        invariant
            out@ + queue@ == all,
        ensures
            out@ == all,
            queue@.len() == 0,
        decreases queue@.len(),
    {
        match queue.pop_front() {
            Some(obj) => {
                proof {
                    assert(out@.push(obj) + queue@ =~= all);
                }
                out.push(obj);
            },
            None => {
                assert(out@ =~= all);
                break;
            },
        }
    }
    out
}

/// A relative number is undone by adding the first packet's number back: the packet's
/// own transport-wide sequence number comes out, modulo 2^16.
pub proof fn lemma_offset_recovers_seq(start: u16, seq: u16)
    ensures
        (start + seq_offset(start, seq)) % 0x10000 == seq,
{
}

/// A feedback packet is applied at most once: once a report has been applied and its
/// base remembered, the same packet is skipped.
pub proof fn lemma_report_applied_once(data: Seq<u8>, last_base: usize)
    requires
        twcc_feedback(data, Some(last_base)) matches Ok((items, _)) && items.len() > 0,
    ensures
        twcc_feedback(data, Some(twcc_feedback(data, Some(last_base))->Ok_0.0[0].seq as usize))
            == Ok::<(Seq<Feedback>, u64), TwccError>((Seq::empty(), 0)),
{
    lemma_report_numbering(data, Some(last_base));
    let base = bits_be(data, 0, 16);
    lemma_bits_be_bound(data, 0, 16);
    vstd::arithmetic::power2::lemma2_to64();
    vstd::arithmetic::div_mod::lemma_small_mod(base, 0x10000);
}

/// The transport-wide sequence number of a packet is bytes 1 and 2 of its header
/// extension, big-endian; the other bytes, byte 0 included, play no part.
pub proof fn lemma_ext_seq_bytes(ext: Seq<u8>, other: Seq<u8>)
    requires
        ext.len() >= 3,
        other.len() >= 3,
        other[1] == ext[1],
        other[2] == ext[2],
    ensures
        ext_seq(ext) as nat == ext[1] as nat * 256 + ext[2] as nat,
        ext_seq(other) == ext_seq(ext),
{
}

/// Two packets after the first are numbered relative to the same start, and their
/// relative numbers differ as their sequence numbers do, modulo 2^16.
pub proof fn lemma_offsets_differ_as_seqs(start: u16, a: u16, b: u16)
    ensures
        (seq_offset(start, b) - seq_offset(start, a)) % 0x10000 == (b - a) % 0x10000,
{
}

} // verus!
