use vstd::prelude::*;

use crate::addresses::MemoryKind;
use crate::clock::VClock;
use crate::random::Draws;

verus! {

/// The most freed ranges that the pool keeps at once.
pub const MAX_POOL_SIZE: usize = 64;

/// A freed address range, waiting to be handed to a new allocation.
pub struct ReuseEntry {
    pub addr: u64,
    pub size: u64,
    pub align: u64,
    pub kind: MemoryKind,
    /// The thread that freed the range.
    pub thread: usize,
    /// What the freeing thread had seen when it freed the range, where clocks are tracked.
    pub clock: Option<VClock>,
}

/// Whether `e` can serve a request for `size` bytes aligned to `align` in region
/// `kind` made by `thread`; `cross` says whether a range freed by another
/// thread may serve it (never for stack ranges, which belong to their thread).
pub open spec fn compatible(
    e: ReuseEntry,
    size: u64,
    align: u64,
    kind: MemoryKind,
    thread: usize,
    cross: bool,
) -> bool {
    &&& e.size == size
    &&& e.align == align
    &&& e.kind == kind
    &&& (e.thread == thread || (cross && kind != MemoryKind::Stack))
}

/// `i` is the most recently added entry of `s` that is compatible with the request.
pub open spec fn last_compatible(
    s: Seq<ReuseEntry>,
    i: int,
    size: u64,
    align: u64,
    kind: MemoryKind,
    thread: usize,
    cross: bool,
) -> bool {
    &&& 0 <= i < s.len()
    &&& compatible(s[i], size, align, kind, thread, cross)
    &&& forall|j: int| i < j < s.len() ==> !compatible(#[trigger] s[j], size, align, kind, thread, cross)
}

/// The entries after offering `e` to a pool holding `s` that admits `rate`
/// percent of freed ranges.
pub open spec fn added_entries(s: Seq<ReuseEntry>, rate: u64, draws: Draws, e: ReuseEntry) -> Seq<ReuseEntry> {
    if draws.reuse_roll >= rate {
        s
    } else if s.len() < MAX_POOL_SIZE {
        s.push(e)
    } else {
        s.update((draws.evict_pick % (s.len() as u64)) as int, e)
    }
}

/// A bounded store of freed ranges.
pub struct ReusePool {
    /// Percentage of freed ranges that enter the pool.
    address_reuse_rate: u64,
    /// Percentage of requests that may take a range freed by another thread.
    cross_thread_rate: u64,
    entries: Vec<ReuseEntry>,
}

impl ReusePool {
    pub closed spec fn entries_view(&self) -> Seq<ReuseEntry> {
        self.entries@
    }

    pub closed spec fn reuse_rate(&self) -> u64 {
        self.address_reuse_rate
    }

    pub closed spec fn cross_rate(&self) -> u64 {
        self.cross_thread_rate
    }

    pub open spec fn wf(&self) -> bool {
        self.entries_view().len() <= MAX_POOL_SIZE
    }

    /// Whether a request rolled `draws` may take a range freed by another thread.
    pub open spec fn cross_allowed(&self, draws: Draws) -> bool {
        draws.cross_thread_roll < self.cross_rate()
    }

    /// An empty pool; the rates are percentages.
    pub fn new(address_reuse_rate: u64, cross_thread_rate: u64) -> (r: ReusePool)
        ensures
            r.wf(),
            r.entries_view().len() == 0,
            r.reuse_rate() == address_reuse_rate,
            r.cross_rate() == cross_thread_rate,
    {
        ReusePool { address_reuse_rate, cross_thread_rate, entries: Vec::new() }
    }

    pub fn len(&self) -> (r: usize)
        ensures
            r == self.entries_view().len(),
    {
        self.entries.len()
    }

    /// Offers a freed range to the pool. It enters unless the roll says
    /// otherwise; when the pool is full it takes the place of the entry at
    /// `draws.evict_pick` modulo the pool size.
    pub fn add_addr(
        &mut self,
        draws: Draws,
        addr: u64,
        size: u64,
        align: u64,
        kind: MemoryKind,
        thread: usize,
        clock: Option<VClock>,
    )
        requires
            old(self).wf(),
        ensures
            final(self).wf(),
            final(self).reuse_rate() == old(self).reuse_rate(),
            final(self).cross_rate() == old(self).cross_rate(),
            final(self).entries_view() == added_entries(
                old(self).entries_view(),
                old(self).reuse_rate(),
                draws,
                ReuseEntry { addr, size, align, kind, thread, clock },
            ),
    {
        if draws.reuse_roll >= self.address_reuse_rate {
            return ;
        }
        let e = ReuseEntry { addr, size, align, kind, thread, clock };
        if self.entries.len() < MAX_POOL_SIZE {
            self.entries.push(e);
        } else {
            let i = (draws.evict_pick % (self.entries.len() as u64)) as usize;
            self.entries.set(i, e);
        }
    }

    /// Takes the most recently added range that can serve the request, if the
    /// roll lets the request use the pool at all. Returns its address and clock.
    pub fn take_addr(
        &mut self,
        draws: Draws,
        size: u64,
        align: u64,
        kind: MemoryKind,
        thread: usize,
    ) -> (r: Option<(u64, Option<VClock>)>)
        requires
            old(self).wf(),
        ensures
            final(self).wf(),
            final(self).reuse_rate() == old(self).reuse_rate(),
            final(self).cross_rate() == old(self).cross_rate(),
            ({
                let s = old(self).entries_view();
                let cross = old(self).cross_allowed(draws);
                &&& r is None <==> (draws.reuse_roll >= old(self).reuse_rate() || forall|i: int|
                    0 <= i < s.len() ==> !compatible(#[trigger] s[i], size, align, kind, thread, cross))
                &&& r is None ==> *final(self) == *old(self)
                &&& r is Some ==> exists|i: int|
                    #[trigger] last_compatible(s, i, size, align, kind, thread, cross) && r
                        == Some((s[i].addr, s[i].clock)) && final(self).entries_view()
                        == s.remove(i)
            }),
    {
        if draws.reuse_roll >= self.address_reuse_rate {
            return None;
        }
        let cross = draws.cross_thread_roll < self.cross_thread_rate;
        let ghost s = self.entries@;
        let mut i: usize = self.entries.len();
        while i > 0
            invariant
                i <= s.len(),
                s.len() <= MAX_POOL_SIZE,
                draws.reuse_roll < self.address_reuse_rate,
                cross == (draws.cross_thread_roll < self.cross_thread_rate),
                self.entries@ == s,
                *self == *old(self),
                forall|j: int|
                    i <= j < s.len() ==> !compatible(#[trigger] s[j], size, align, kind, thread, cross),
            decreases i,
        {
            let e = &self.entries[i - 1];
            if e.size == size && e.align == align && e.kind == kind && (e.thread == thread || (cross
                && kind != MemoryKind::Stack)) {
                let taken = self.entries.remove(i - 1);
                let r = Some((taken.addr, taken.clock));
                proof {
                    assert(r == Some((s[i - 1].addr, s[i - 1].clock)));
                    assert(self.entries_view() == s.remove(i - 1));
                    assert(cross == old(self).cross_allowed(draws));
                    assert(s == old(self).entries_view());
                    assert(last_compatible(old(self).entries_view(), i - 1, size, align, kind, thread, cross));
                    assert(!(forall|k: int| 0 <= k < s.len() ==> !compatible(#[trigger] s[k], size, align, kind, thread, cross)));
                }
                return r;
            }
            i = i - 1;
        }
        None
    }
}

} // verus!
