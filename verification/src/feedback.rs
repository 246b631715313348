//! One entry of a transport-wide feedback report.

use vstd::prelude::*;

verus! {

/// The receive report for one sent packet: its ECN/status symbol, its transport-wide
/// sequence number and its receive timestamp.
#[derive(Debug, Clone, Copy, PartialEq, Eq)]
pub struct Feedback {
    pub ecn: u8,
    pub seq: u16,
    pub ts: u64,
}

impl Feedback {
    /// A report for packet `seq` with status `ecn` and no timestamp yet.
    pub fn new(ecn: u8, seq: u16) -> (f: Feedback)
        ensures
            f == (Feedback { ecn, seq, ts: 0 }),
    {
        Feedback { ecn, seq, ts: 0 }
    }
}

} // verus!
