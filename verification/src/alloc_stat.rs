//! Allocation counters: what happened between two looks at them.

use vstd::prelude::*;

verus! {

/// The counters at one moment.
#[derive(Clone, Copy, Debug)]
pub struct Stats {
    pub allocs: u64,
    pub reallocs: u64,
    pub frees: u64,
    pub bytes: u64,
}

/// What happened since an earlier look.
#[derive(Clone, Copy, Debug)]
pub struct Delta {
    pub allocs: u64,
    pub reallocs: u64,
    pub frees: u64,
    /// Allocations that are not freed now.
    pub live: i64,
}

/// The counters have only grown since `last`, and the allocations that are not
/// freed can be counted.
pub open spec fn comparable(now: Stats, last: Stats) -> bool {
    &&& last.allocs <= now.allocs
    &&& last.reallocs <= now.reallocs
    &&& last.frees <= now.frees
    &&& -i64::MAX <= now.allocs - now.frees <= i64::MAX
}

impl Stats {
    /// True when `since` may be called with `last`.
    pub fn can_compare(&self, last: &Stats) -> (r: bool)
        ensures
            r == comparable(*self, *last),
    {
        let gap = if self.allocs >= self.frees {
            self.allocs - self.frees
        } else {
            self.frees - self.allocs
        };
        last.allocs <= self.allocs && last.reallocs <= self.reallocs && last.frees <= self.frees
            && gap <= i64::MAX as u64
    }

    /// What happened since `last`.
    pub fn since(&self, last: &Stats) -> (r: Delta)
        requires
            comparable(*self, *last),
        ensures
            r.allocs == self.allocs - last.allocs,
            r.reallocs == self.reallocs - last.reallocs,
            r.frees == self.frees - last.frees,
            r.live == self.allocs - self.frees,
    {
        let live: i64 = if self.allocs >= self.frees {
            (self.allocs - self.frees) as i64
        } else {
            -((self.frees - self.allocs) as i64)
        };
        Delta {
            allocs: self.allocs - last.allocs,
            reallocs: self.reallocs - last.reallocs,
            frees: self.frees - last.frees,
            live,
        }
    }
}

/// Two looks can be compared whenever the counters only grew and the difference
/// between allocations and frees can be written down.
pub proof fn law_growing_counters_compare(now: Stats, last: Stats)
    ensures
        comparable(now, last) <==> now.allocs >= last.allocs && now.reallocs >= last.reallocs
            && now.frees >= last.frees && now.allocs - now.frees <= 0x7fff_ffff_ffff_ffff
            && now.frees - now.allocs <= 0x7fff_ffff_ffff_ffff,
{
}

} // verus!
