//! Per-segment record accounting: how many records a log segment holds and
//! how many of them are garbage (no longer referenced by the index).

use vstd::prelude::*;

verus! {

/// Record counters for one log segment.
///
/// `len` counts every record ever appended to the segment, `len_garbage`
/// counts the records among them that are no longer live. The store keeps
/// `len_garbage <= len` for every segment it tracks.
#[derive(Clone, Copy, Debug, PartialEq, Eq, Structural)]
pub struct LengthCount {
    /// Total number of records appended to the segment.
    pub len: usize,
    /// Number of appended records that are garbage.
    pub len_garbage: usize,
}

impl LengthCount {
    /// Counters of a freshly created, empty segment.
    pub fn new() -> (r: Self)
        ensures
            r.len == 0,
            r.len_garbage == 0,
    {
        LengthCount { len: 0, len_garbage: 0 }
    }

    /// Number of records that are still live: `len - len_garbage`.
    pub fn effective_len(&self) -> (r: usize)
        requires
            self.len_garbage <= self.len,
        ensures
            r == self.len - self.len_garbage,
    {
        self.len - self.len_garbage
    }

    /// Account for one appended record that is live.
    pub fn increase_len(&mut self)
        requires
            old(self).len < usize::MAX,
        ensures
            final(self).len == old(self).len + 1,
            final(self).len_garbage == old(self).len_garbage,
    {
        self.len = self.len + 1;
    }

    /// Account for one previously counted record having become garbage.
    pub fn increase_garbage_len(&mut self)
        requires
            old(self).len_garbage < usize::MAX,
        ensures
            final(self).len == old(self).len,
            final(self).len_garbage == old(self).len_garbage + 1,
    {
        self.len_garbage = self.len_garbage + 1;
    }

    /// Account for one appended record that is garbage from the start.
    pub fn increase_len_with_garbage(&mut self)
        requires
            old(self).len < usize::MAX,
            old(self).len_garbage < usize::MAX,
        ensures
            final(self).len == old(self).len + 1,
            final(self).len_garbage == old(self).len_garbage + 1,
    {
        self.len = self.len + 1;
        self.len_garbage = self.len_garbage + 1;
    }

    /// Whether the garbage rate `len_garbage / len` is strictly above the
    /// threshold `permille / 1000`, computed without division so that a
    /// segment with no records is never above any threshold.
    pub fn garbage_rate_exceeds(&self, permille: u64) -> (r: bool)
        ensures
            r == (1000 * self.len_garbage > permille * self.len),
    {
        let g = self.len_garbage as u128;
        let p = permille as u128;
        let l = self.len as u128;
        proof {
            assert(g * 1000 <= u128::MAX && p * l <= u128::MAX) by (nonlinear_arith)
                requires
                    g < 0x10000000000000000,
                    p < 0x10000000000000000,
                    l < 0x10000000000000000,
            ;
        }
        g * 1000 > p * l
    }
}

} // verus!
