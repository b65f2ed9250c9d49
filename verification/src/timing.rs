//! Where the tempo of a song changes.
use vstd::prelude::*;

use crate::time_point::{zero_pair, TimePoint};

verus! {

/// A change of tempo at a time point. The tempo is a BPM held as the bit
/// pattern of an `f64` (`f64::to_bits`); this library stores and hands it on
/// without computing with it.
#[derive(Debug, Clone, Copy)]
pub struct BPMChange {
    pub time_point: TimePoint,
    pub bpm_bits: u64,
}

/// The tempo map of a song: its BPM changes in order.
#[derive(Debug)]
pub struct Timing {
    bpm_changes: Vec<BPMChange>,
}

/// The bit pattern of the `f64` value `120.0`.
pub open spec fn default_bpm_bits() -> u64 {
    0x405E_0000_0000_0000u64
}

impl View for Timing {
    type V = Seq<BPMChange>;

    closed spec fn view(&self) -> Seq<BPMChange> {
        self.bpm_changes@
    }
}

impl Default for Timing {
    /// 120 BPM from the start.
    fn default() -> (r: Timing)
        ensures
            r@.len() == 1,
            r@[0].time_point@ == zero_pair(),
            r@[0].bpm_bits == default_bpm_bits(),
    {
        let mut bpm_changes: Vec<BPMChange> = Vec::new();
        bpm_changes.push(BPMChange { time_point: TimePoint::zero(), bpm_bits: 0x405E_0000_0000_0000u64 });
        Timing { bpm_changes }
    }
}

impl Clone for Timing {
    fn clone(&self) -> (r: Timing)
        ensures
            r@ == self@,
    {
        let v = self.bpm_changes.clone();
        proof {
            assert(v@ =~= self.bpm_changes@);
        }
        Timing { bpm_changes: v }
    }
}

impl Timing {
    /// A timing with the given BPM changes.
    pub fn from_changes(bpm_changes: Vec<BPMChange>) -> (r: Timing)
        ensures
            r@ == bpm_changes@,
    {
        Timing { bpm_changes }
    }

    /// The BPM changes, handed back.
    pub fn into_changes(self) -> (r: Vec<BPMChange>)
        ensures
            r@ == self@,
    {
        self.bpm_changes
    }

    /// The tempo at the start (bit pattern of the `f64` BPM).
    pub fn base_bpm(&self) -> (r: u64)
        requires
            self@.len() > 0,
        ensures
            r == self@[0].bpm_bits,
    {
        self.bpm_changes[0].bpm_bits
    }

    /// The BPM changes.
    pub fn bpm_changes(&self) -> (r: &[BPMChange])
        ensures
            r@ == self@,
    {
        self.bpm_changes.as_slice()
    }

    /// An iterator over the BPM changes, in order.
    pub fn iter(&self) -> (r: std::slice::Iter<'_, BPMChange>)
        ensures
            vstd::std_specs::slice::into_iter_elts(r) == self@,
    {
        broadcast use vstd::std_specs::slice::axiom_spec_slice_iter;
        let r = self.bpm_changes.as_slice().iter();
        proof {
            assert(self@.as_ref().unref() =~= self@);
        }
        r
    }

    /// The first BPM change.
    pub fn first(&self) -> (r: Option<&BPMChange>)
        ensures
            r is None <==> self@.len() == 0,
            r matches Some(c) ==> *c == self@[0],
    {
        if self.bpm_changes.len() == 0 {
            None
        } else {
            Some(&self.bpm_changes[0])
        }
    }

    /// The last BPM change.
    pub fn last(&self) -> (r: Option<&BPMChange>)
        ensures
            r is None <==> self@.len() == 0,
            r matches Some(c) ==> *c == self@.last(),
    {
        let n = self.bpm_changes.len();
        if n == 0 {
            None
        } else {
            Some(&self.bpm_changes[n - 1])
        }
    }

    /// The `i`-th BPM change.
    pub fn get_bpm_change_unchecked(&self, i: usize) -> (r: BPMChange)
        requires
            i < self@.len(),
        ensures
            r == self@[i as int],
    {
        self.bpm_changes[i]
    }
}

} // verus!
