//! The property values of a sender element.

use vstd::prelude::*;

verus! {

/// Bitrate reported before any estimate is known, in kbit/s.
pub const DEFAULT_CURRENT_MAX_BITRATE: u32 = 0;

/// The `params` and `current-max-bitrate` properties of a sender element.
#[derive(Debug, Clone)]
pub struct Settings {
    pub params: Option<String>,
    /// The bitrate the encoder should not exceed, in kbit/s.
    pub current_max_bitrate: u32,
}

impl Default for Settings {
    fn default() -> (s: Self)
        ensures
            s.params is None,
            s.current_max_bitrate == DEFAULT_CURRENT_MAX_BITRATE,
    {
        Settings { params: None, current_max_bitrate: DEFAULT_CURRENT_MAX_BITRATE }
    }
}

/// The maximum bitrate, in kbit/s, after an estimate of `rate` bit/s when it was `current`.
pub open spec fn estimated_max(current: u32, rate: u32) -> u32 {
    if rate == 0 {
        current
    } else {
        rate / 1000
    }
}

impl Settings {
    /// Takes a bitrate estimate in bit/s. An estimate of 0 means none is known yet and
    /// changes nothing; otherwise the maximum bitrate becomes the estimate in kbit/s
    /// (rounded down). Returns whether the maximum bitrate changed, that is whether the
    /// element has to announce the new value.
    pub fn apply_estimate(&mut self, rate: u32) -> (changed: bool)
        ensures
            final(self).params == old(self).params,
            final(self).current_max_bitrate == estimated_max(old(self).current_max_bitrate, rate),
            rate == 0 ==> final(self).current_max_bitrate == old(self).current_max_bitrate,
            rate != 0 ==> final(self).current_max_bitrate == rate / 1000,
            changed == (final(self).current_max_bitrate != old(self).current_max_bitrate),
    {
        if rate != 0 {
            let rate = rate / 1000;
            let are_equal = self.current_max_bitrate == rate;
            if !are_equal {
                self.current_max_bitrate = rate;
            }
            !are_equal
        } else {
            false
        }
    }

    /// Sets the maximum bitrate, in kbit/s, to what the congestion controller decided,
    /// and returns the value it had before.
    pub fn replace_max_bitrate(&mut self, bitrate: u32) -> (previous: u32)
        ensures
            final(self).params == old(self).params,
            final(self).current_max_bitrate == bitrate,
            previous == old(self).current_max_bitrate,
    {
        let old_br = self.current_max_bitrate;
        self.current_max_bitrate = bitrate;
        old_br
    }
}

/// Taking the same estimate twice changes the maximum bitrate at most once: the second
/// time nothing changes, so nothing is announced.
pub proof fn lemma_estimate_idempotent(current: u32, rate: u32)
    ensures
        estimated_max(estimated_max(current, rate), rate) == estimated_max(current, rate),
{
}

/// A nonzero estimate of r bit/s sets the maximum bitrate to r / 1000 kbit/s (rounded
/// down), whatever it was before; an estimate of 0 keeps it.
pub proof fn lemma_estimate_sets_kbit(current: u32, rate: u32)
    ensures
        rate != 0 ==> estimated_max(current, rate) == rate / 1000,
        rate != 0 ==> estimated_max(current, rate) * 1000 <= rate < (estimated_max(current, rate) + 1) * 1000,
        rate == 0 ==> estimated_max(current, rate) == current,
{
}

} // verus!
