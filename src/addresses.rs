use vstd::prelude::*;

use crate::clock::{dominates, join_spec, lemma_join_dominates, VClock};
use crate::page_table::{PageState, PageTable};
use crate::random::Draws;
use crate::reuse_pool::{added_entries, last_compatible, ReuseEntry, ReusePool};

verus! {

/// The region an allocation's address is drawn from.
#[derive(Clone, Copy, Debug, PartialEq, Eq, Structural)]
pub enum MemoryKind {
    /// Heap and global allocations; they grow upward from a shared cursor.
    Heap,
    /// Stack allocations of one thread; they grow downward from that thread's cursor.
    Stack,
    /// Per-thread CPU-local allocations; they grow upward from their own shared cursor.
    CpuLocal,
}

/// How integer-to-pointer casts are treated.
#[derive(Clone, Copy, Debug, PartialEq, Eq, Structural)]
pub enum ProvenanceMode {
    /// Casts produce wildcard pointers; the first cast at each source location warns.
    Default,
    /// Like `Default`, without the warning.
    Permissive,
    /// Casts are refused.
    Strict,
}

/// An allocation handle. Handles are handed out in order and never reused.
#[derive(Clone, Copy, Debug, PartialEq, Eq, Structural)]
pub struct AllocId(pub usize);

/// How an allocation came to be.
#[derive(Clone, Copy, Debug, PartialEq, Eq, Structural)]
pub enum Origin {
    /// Registered by the interpreter.
    Assigned,
    /// Synthesized on first touch of a typed page.
    TypedPage,
    /// A thread's private copy of a CPU-local template allocation; its bytes
    /// are to be copied from `template`.
    CpuLocalCopy { template: AllocId },
}

/// What the manager knows of one allocation.
#[derive(Clone, Copy, Debug)]
pub struct AllocRecord {
    pub size: u64,
    pub align: u64,
    pub live: bool,
    /// Whether the address was exposed for wildcard resolution.
    pub exposed: bool,
    /// (virtual, physical) base address, once assigned. Kept after death.
    pub base: Option<(u64, u64)>,
    pub origin: Origin,
}

/// Errors of address assignment.
#[derive(Clone, Copy, Debug, PartialEq, Eq, Structural)]
pub enum AllocError {
    /// No region has room for the allocation.
    AddressSpaceFull,
}

/// Errors of integer-to-pointer casts.
#[derive(Clone, Copy, Debug, PartialEq, Eq, Structural)]
pub enum ProvenanceError {
    /// A cast was attempted under the strict policy.
    Int2PtrWithStrictProvenance,
}

/// What a pointer may access.
#[derive(Clone, Copy, Debug, PartialEq, Eq, Structural)]
pub enum Provenance {
    /// Exactly one allocation, with a borrow-tracking tag.
    Concrete { alloc_id: AllocId, tag: u64 },
    /// Whichever exposed allocation the address falls in, at each access.
    Wildcard,
}

#[derive(Clone, Copy, Debug, PartialEq, Eq, Structural)]
pub struct Pointer {
    pub provenance: Provenance,
    pub addr: u64,
}

/// The outcome of an integer-to-pointer cast.
#[derive(Clone, Copy, Debug, PartialEq, Eq, Structural)]
pub struct IntCast {
    pub ptr: Pointer,
    /// `Some(first)` when a precision-loss warning is due at this location;
    /// `first` tells whether it is the first warning of the session.
    pub warning: Option<bool>,
}

/// An allocation that a miss in page-table mode brings into being.
#[derive(Clone, Copy, Debug)]
pub struct Materialization {
    pub size: u64,
    pub align: u64,
    pub phys: u64,
    pub virt: u64,
    pub origin: Origin,
}

/// What a wildcard access finds, before any exposure check.
pub enum Lookup {
    /// A live allocation owns the address.
    Owned(AllocId),
    /// No allocation owns it, and one is to be synthesized.
    Materialize(Materialization),
    /// Nothing owns it and nothing is synthesized.
    Miss,
}

/// The record of a synthesized allocation.
pub open spec fn record_of(m: Materialization) -> AllocRecord {
    AllocRecord {
        size: m.size,
        align: m.align,
        live: true,
        exposed: true,
        base: Some((m.virt, m.phys)),
        origin: m.origin,
    }
}

/// Bounds of the address space.
#[derive(Clone, Copy, Debug)]
pub struct Config {
    pub provenance_mode: ProvenanceMode,
    /// Heap and global addresses stay below this.
    pub heap_limit: u64,
    /// Where CPU-local addresses start.
    pub cpu_local_begin: u64,
    /// CPU-local addresses stay below this.
    pub cpu_local_limit: u64,
    /// Size of each thread's CPU-local window.
    pub cpu_local_size: u64,
    /// The largest address of the target.
    pub target_usize_max: u64,
    /// Whether freed ranges carry the freeing thread's clock.
    pub track_clocks: bool,
    /// Percentage of freed ranges kept for reuse.
    pub address_reuse_rate: u64,
    /// Percentage of requests that may reuse a range freed by another thread.
    pub address_reuse_cross_thread_rate: u64,
}

/// The extent an allocation of `size` bytes occupies: zero-sized ones take one byte.
pub open spec fn ext(size: u64) -> int {
    if size == 0 {
        1
    } else {
        size as int
    }
}

/// `addr` rounded up to a multiple of `align`.
pub open spec fn align_up(addr: int, align: int) -> int {
    if addr % align == 0 {
        addr
    } else {
        addr + align - addr % align
    }
}

/// The address actually probed for an access of signed size `size` at `a`:
/// a negative size asks for the byte just before `a`.
pub open spec fn probe(a: u64, size: i64) -> u64 {
    if size >= 0 || a == 0 {
        a
    } else {
        (a - 1) as u64
    }
}

/// `a - b` modulo 2^64.
pub open spec fn wrap_sub(a: u64, b: u64) -> u64 {
    if a >= b {
        (a - b) as u64
    } else {
        (a - b + 0x1_0000_0000_0000_0000) as u64
    }
}

/// `a + b` modulo 2^64.
pub open spec fn wrap_add(a: u64, b: u64) -> u64 {
    if a + b <= u64::MAX {
        (a + b) as u64
    } else {
        (a + b - 0x1_0000_0000_0000_0000) as u64
    }
}

/// `x` cut to a target whose largest address is `max`.
pub open spec fn truncate_to(x: u64, max: u64) -> u64 {
    if max == u64::MAX {
        x
    } else {
        (x as int % (max as int + 1)) as u64
    }
}

fn truncate_exec(x: u64, max: u64) -> (r: u64)
    ensures
        r == truncate_to(x, max),
{
    if max == u64::MAX {
        x
    } else {
        x % (max + 1)
    }
}

/// Shifts `addr` to make it aligned with `align` by rounding `addr` to the
/// smallest multiple of `align` that is larger or equal to `addr`.
pub fn align_addr(addr: u64, align: u64) -> (r: u64)
    requires
        align > 0,
        align_up(addr as int, align as int) <= u64::MAX,
    ensures
        r == align_up(addr as int, align as int),
{
    let rem = addr % align;
    if rem == 0 {
        addr
    } else {
        addr + (align - rem)
    }
}

/// The address-space manager: the forward map from handles to addresses, the
/// address-sorted reverse map of live allocations, region cursors, the reuse
/// pool and the optional page table.
pub struct GlobalStateInner {
    /// (physical base, handle) of every live allocation with an address, sorted by address.
    int_to_ptr_map: Vec<(u64, AllocId)>,
    /// One record per handle, indexed by handle.
    allocs: Vec<AllocRecord>,
    reuse: ReusePool,
    next_base_addr: u64,
    next_cpu_local_addr: u64,
    stack_bottoms: Vec<u64>,
    stack_cursors: Vec<u64>,
    cpu_local_bases: Vec<u64>,
    clocks: Vec<VClock>,
    provenance_mode: ProvenanceMode,
    page_table: Option<PageTable>,
    page_states: Vec<PageState>,
    past_warnings: Vec<u64>,
    config: Config,
}

impl GlobalStateInner {
    pub closed spec fn map(&self) -> Seq<(u64, AllocId)> {
        self.int_to_ptr_map@
    }

    pub closed spec fn records(&self) -> Seq<AllocRecord> {
        self.allocs@
    }

    pub closed spec fn pool(&self) -> ReusePool {
        self.reuse
    }

    pub closed spec fn heap_cursor(&self) -> u64 {
        self.next_base_addr
    }

    pub closed spec fn cpu_local_cursor(&self) -> u64 {
        self.next_cpu_local_addr
    }

    pub closed spec fn stack_bottoms_view(&self) -> Seq<u64> {
        self.stack_bottoms@
    }

    pub closed spec fn stack_cursors_view(&self) -> Seq<u64> {
        self.stack_cursors@
    }

    pub closed spec fn cpu_local_bases_view(&self) -> Seq<u64> {
        self.cpu_local_bases@
    }

    pub closed spec fn clocks_view(&self) -> Seq<Seq<u64>> {
        self.clocks@.map_values(|c: VClock| c@)
    }

    pub closed spec fn mode(&self) -> ProvenanceMode {
        self.provenance_mode
    }

    pub closed spec fn table(&self) -> Option<PageTable> {
        self.page_table
    }

    pub closed spec fn pages(&self) -> Seq<PageState> {
        self.page_states@
    }

    pub closed spec fn warned(&self) -> Seq<u64> {
        self.past_warnings@
    }

    pub closed spec fn cfg(&self) -> Config {
        self.config
    }

    pub open spec fn num_threads(&self) -> int {
        self.stack_cursors_view().len() as int
    }

    pub open spec fn valid_id(&self, id: AllocId) -> bool {
        id.0 < self.records().len()
    }

    pub open spec fn record(&self, id: AllocId) -> AllocRecord {
        self.records()[id.0 as int]
    }

    pub open spec fn is_live(&self, id: AllocId) -> bool {
        self.valid_id(id) && self.record(id).live
    }

    /// Size of the allocation of the `i`-th reverse-map entry.
    pub open spec fn entry_size(&self, i: int) -> u64 {
        self.records()[self.map()[i].1.0 as int].size
    }

    /// The `i`-th reverse-map entry owns address `p`: its base, or strictly inside it.
    pub open spec fn covers(&self, i: int, p: int) -> bool {
        let a = self.map()[i].0 as int;
        a == p || (a < p && p < a + self.entry_size(i))
    }

    /// The live allocation that owns physical address `p`, if any.
    pub open spec fn owner(&self, p: u64) -> Option<AllocId> {
        if exists|i: int| 0 <= i < self.map().len() && #[trigger] self.covers(i, p as int) {
            Some(
                self.map()[choose|i: int|
                    0 <= i < self.map().len() && #[trigger] self.covers(i, p as int)].1,
            )
        } else {
            None
        }
    }

    /// No live allocation overlaps `[base, base + ext(size))`.
    pub open spec fn range_free(&self, base: u64, size: u64) -> bool {
        forall|i: int|
            0 <= i < self.map().len() ==> #[trigger] self.map()[i].0 + ext(self.entry_size(i))
                <= base || base + ext(size) <= self.map()[i].0
    }

    /// Virtual to physical translation; the identity without a page table.
    pub open spec fn translate(&self, v: u64) -> Option<u64> {
        match self.table() {
            Some(t) => t.walk(v),
            None => Some(v),
        }
    }

    /// Everything but the allocation maps and the reuse pool is as in `other`.
    pub open spec fn same_regions(&self, other: &GlobalStateInner) -> bool {
        &&& self.heap_cursor() == other.heap_cursor()
        &&& self.cpu_local_cursor() == other.cpu_local_cursor()
        &&& self.stack_bottoms_view() == other.stack_bottoms_view()
        &&& self.stack_cursors_view() == other.stack_cursors_view()
        &&& self.cpu_local_bases_view() == other.cpu_local_bases_view()
        &&& self.clocks_view() == other.clocks_view()
        &&& self.mode() == other.mode()
        &&& self.table() == other.table()
        &&& self.pages() == other.pages()
        &&& self.warned() == other.warned()
        &&& self.cfg() == other.cfg()
    }

    closed spec fn entry_ok(&self, i: int) -> bool {
        let id = self.map()[i].1;
        &&& id.0 < self.records().len()
        &&& self.record(id).live
        &&& self.record(id).base matches Some(b) && b.1 == self.map()[i].0
    }

    closed spec fn in_map(&self, id: int) -> bool {
        exists|i: int| 0 <= i < self.map().len() && #[trigger] self.map()[i].1.0 == id
    }

    /// The well-formedness of the manager.
    pub closed spec fn wf(&self) -> bool {
        &&& self.stack_bottoms@.len() == self.stack_cursors@.len()
        &&& self.cpu_local_bases@.len() == self.stack_cursors@.len()
        &&& self.clocks@.len() == self.stack_cursors@.len()
        &&& self.reuse.wf()
        &&& self.allocs@.len() <= usize::MAX
        &&& self.provenance_mode == self.config.provenance_mode
        &&& (self.page_table matches Some(t) ==> t.wf())
        &&& forall|i: int| 0 <= i < self.map().len() ==> #[trigger] self.entry_ok(i)
        &&& forall|i: int, j: int|
            0 <= i < j < self.map().len() ==> self.map()[i].0 + ext(self.entry_size(i))
                <= #[trigger] self.map()[j].0 && #[trigger] self.map()[i] == self.map()[i]
        &&& forall|id: int|
            0 <= id < self.records().len() && (#[trigger] self.records()[id]).live
                && self.records()[id].base is Some ==> self.in_map(id)
        &&& forall|id: int|
            0 <= id < self.records().len() ==> ((#[trigger] self.records()[id]).exposed
                ==> self.records()[id].live) && self.records()[id].align > 0
    }

    /// The invariant rests on the maps, the pool, the thread tables and the
    /// page table alone.
    proof fn lemma_wf_frame(&self, prev: &GlobalStateInner)
        requires
            prev.wf(),
            self.int_to_ptr_map@ == prev.int_to_ptr_map@,
            self.allocs@ == prev.allocs@,
            self.reuse.wf(),
            self.allocs@.len() <= usize::MAX,
            self.stack_bottoms@.len() == self.stack_cursors@.len(),
            self.cpu_local_bases@.len() == self.stack_cursors@.len(),
            self.clocks@.len() == self.stack_cursors@.len(),
            self.provenance_mode == self.config.provenance_mode,
            self.page_table matches Some(t) ==> t.wf(),
        ensures
            self.wf(),
    {
        assert forall|i: int| 0 <= i < self.map().len() implies #[trigger] self.entry_ok(i) by {
            assert(prev.entry_ok(i));
        }
        assert forall|k: int|
            0 <= k < self.records().len() && (#[trigger] self.records()[k]).live
                && self.records()[k].base is Some implies self.in_map(k) by {
            assert(prev.in_map(k));
            let i = choose|i: int| 0 <= i < prev.map().len() && #[trigger] prev.map()[i].1.0 == k;
            assert(self.map()[i].1.0 == k);
        }
        assert forall|i: int, j: int| 0 <= i < j < self.map().len() implies self.map()[i].0 + ext(
            self.entry_size(i),
        ) <= #[trigger] self.map()[j].0 && #[trigger] self.map()[i] == self.map()[i] by {
            assert(prev.map()[i].0 + ext(prev.entry_size(i)) <= prev.map()[j].0 && prev.map()[i]
                == prev.map()[i]);
        }
    }

    /// Ownership rests on the maps alone.
    proof fn lemma_owner_frame(&self, prev: &GlobalStateInner)
        requires
            prev.wf(),
            self.wf(),
            self.map() == prev.map(),
            forall|i: int| 0 <= i < self.map().len() ==> #[trigger] self.entry_size(i) == prev.entry_size(i),
        ensures
            forall|p: u64| #[trigger] self.owner(p) == prev.owner(p),
    {
        assert forall|p: u64| #[trigger] self.owner(p) == prev.owner(p) by {
            assert forall|i: int| 0 <= i < self.map().len() implies self.covers(i, p as int)
                == prev.covers(i, p as int) by {
                assert(self.entry_size(i) == prev.entry_size(i));
            }
            if exists|i: int| 0 <= i < self.map().len() && #[trigger] self.covers(i, p as int) {
                let i = choose|i: int| 0 <= i < self.map().len() && #[trigger] self.covers(i, p as int);
                self.lemma_owner(i, p);
                prev.lemma_owner(i, p);
            }
        }
    }

    /// An owner is live and has an address.
    proof fn lemma_owner_live(&self, p: u64)
        requires
            self.wf(),
            self.owner(p) is Some,
        ensures
            self.is_live(self.owner(p).unwrap()),
            self.record(self.owner(p).unwrap()).base is Some,
    {
        let i = choose|i: int| 0 <= i < self.map().len() && #[trigger] self.covers(i, p as int);
        assert(self.entry_ok(i));
    }

    proof fn lemma_sorted(&self, i: int, j: int)
        requires
            self.wf(),
            0 <= i < j < self.map().len(),
        ensures
            self.map()[i].0 < self.map()[j].0,
    {
        assert(self.map()[i].0 + ext(self.entry_size(i)) <= self.map()[j].0 && self.map()[i]
            == self.map()[i]);
    }

    /// Only one entry covers an address, so it is the owner.
    proof fn lemma_owner(&self, i: int, p: u64)
        requires
            self.wf(),
            0 <= i < self.map().len(),
            self.covers(i, p as int),
        ensures
            self.owner(p) == Some(self.map()[i].1),
    {
        let k = choose|k: int| 0 <= k < self.map().len() && #[trigger] self.covers(k, p as int);
        if k < i {
            assert(self.map()[k].0 + ext(self.entry_size(k)) <= self.map()[i].0 && self.map()[k]
                == self.map()[k]);
        } else if i < k {
            assert(self.map()[i].0 + ext(self.entry_size(i)) <= self.map()[k].0 && self.map()[i]
                == self.map()[i]);
        }
    }

    /// Binary search of the reverse map for `p`: the index of an entry at `p`,
    /// or the index where such an entry would be inserted.
    fn search(&self, p: u64) -> (r: Result<usize, usize>)
        requires
            self.wf(),
        ensures
            match r {
                Ok(i) => i < self.map().len() && self.map()[i as int].0 == p,
                Err(i) => i <= self.map().len() && (forall|j: int|
                    0 <= j < i ==> #[trigger] self.map()[j].0 < p) && (forall|j: int|
                    i <= j < self.map().len() ==> #[trigger] self.map()[j].0 > p),
            },
    {
        let mut lo: usize = 0;
        let mut hi: usize = self.int_to_ptr_map.len();
        while lo < hi
            invariant
                self.wf(),
                lo <= hi <= self.map().len(),
                forall|j: int| 0 <= j < lo ==> #[trigger] self.map()[j].0 < p,
                forall|j: int| hi <= j < self.map().len() ==> #[trigger] self.map()[j].0 > p,
            decreases hi - lo,
        {
            let mid = lo + (hi - lo) / 2;
            let a = self.int_to_ptr_map[mid].0;
            if a == p {
                return Ok(mid);
            } else if a < p {
                proof {
                    assert forall|j: int| 0 <= j < mid + 1 implies #[trigger] self.map()[j].0 < p by {
                        if j < mid {
                            self.lemma_sorted(j, mid as int);
                        }
                    }
                }
                lo = mid + 1;
            } else {
                proof {
                    assert forall|j: int| mid <= j < self.map().len() implies #[trigger] self.map()[j].0
                        > p by {
                        if j > mid {
                            self.lemma_sorted(mid as int, j);
                        }
                    }
                }
                hi = mid;
            }
        }
        Err(lo)
    }

    /// Index of the reverse-map entry that owns physical address `p`.
    fn find_owner(&self, p: u64) -> (r: Option<usize>)
        requires
            self.wf(),
        ensures
            match r {
                Some(i) => i < self.map().len() && self.covers(i as int, p as int) && self.owner(p)
                    == Some(self.map()[i as int].1),
                None => self.owner(p) is None,
            },
    {
        match self.search(p) {
            Ok(i) => {
                proof {
                    self.lemma_owner(i as int, p);
                }
                Some(i)
            },
            Err(i) => {
                if i == 0 {
                    assert forall|k: int| 0 <= k < self.map().len() implies !#[trigger] self.covers(
                        k,
                        p as int,
                    ) by {}
                    return None;
                }
                let (glb, id) = self.int_to_ptr_map[i - 1];
                proof {
                    assert(self.entry_ok(i - 1));
                }
                let size = self.allocs[id.0].size;
                if p - glb < size {
                    proof {
                        self.lemma_owner(i - 1, p);
                    }
                    Some(i - 1)
                } else {
                    assert forall|k: int| 0 <= k < self.map().len() implies !#[trigger] self.covers(
                        k,
                        p as int,
                    ) by {
                        if k < i - 1 {
                            assert(self.map()[k].0 + ext(self.entry_size(k)) <= self.map()[i
                                - 1].0 && self.map()[k] == self.map()[k]);
                        }
                    }
                    None
                }
            },
        }
    }

    /// Where an allocation of `size` bytes at physical `phys` would enter the
    /// reverse map, if it overlaps nothing live.
    fn free_position(&self, phys: u64, size: u64) -> (r: Option<usize>)
        requires
            self.wf(),
        ensures
            r is Some <==> self.range_free(phys, size),
            r matches Some(pos) ==> pos <= self.map().len() && (forall|j: int|
                0 <= j < pos ==> #[trigger] self.map()[j].0 < phys) && (forall|j: int|
                pos <= j < self.map().len() ==> #[trigger] self.map()[j].0 > phys),
    {
        let ext_size: u64 = if size == 0 {
            1
        } else {
            size
        };
        match self.search(phys) {
            Ok(i) => {
                assert(!(self.map()[i as int].0 + ext(self.entry_size(i as int)) <= phys || phys
                    + ext(size) <= self.map()[i as int].0));
                None
            },
            Err(pos) => {
                if pos > 0 {
                    let (a, id) = self.int_to_ptr_map[pos - 1];
                    proof {
                        assert(self.entry_ok(pos - 1));
                    }
                    let sz = self.allocs[id.0].size;
                    let e: u64 = if sz == 0 {
                        1
                    } else {
                        sz
                    };
                    if a > phys || phys - a < e {
                        assert(!(self.map()[pos - 1].0 + ext(self.entry_size(pos - 1)) <= phys
                            || phys + ext(size) <= self.map()[pos - 1].0));
                        return None;
                    }
                }
                if pos < self.int_to_ptr_map.len() {
                    let a = self.int_to_ptr_map[pos].0;
                    if a - phys < ext_size {
                        assert(!(self.map()[pos as int].0 + ext(self.entry_size(pos as int)) <= phys
                            || phys + ext(size) <= self.map()[pos as int].0));
                        return None;
                    }
                }
                assert forall|j: int| 0 <= j < self.map().len() implies #[trigger] self.map()[j].0
                    + ext(self.entry_size(j)) <= phys || phys + ext(size) <= self.map()[j].0 by {
                    if j < pos - 1 {
                        assert(self.map()[j].0 + ext(self.entry_size(j)) <= self.map()[pos
                            - 1].0 && self.map()[j] == self.map()[j]);
                    } else if j > pos {
                        self.lemma_sorted(pos as int, j);
                    }
                }
                Some(pos)
            },
        }
    }

    /// Gives live handle `id`, which has no address yet, the base `(virt, phys)`
    /// and enters it in the reverse map; `expose` also exposes it.
    fn insert_mapped(&mut self, id: AllocId, virt: u64, phys: u64, expose: bool)
        requires
            old(self).wf(),
            old(self).is_live(id),
            old(self).record(id).base is None,
            old(self).range_free(phys, old(self).record(id).size),
        ensures
            final(self).wf(),
            final(self).same_regions(old(self)),
            final(self).pool() == old(self).pool(),
            final(self).records() == old(self).records().update(
                id.0 as int,
                (AllocRecord {
                    base: Some((virt, phys)),
                    exposed: old(self).record(id).exposed || expose,
                    ..old(self).record(id)
                }),
            ),
            final(self).owner(phys) == Some(id),
            forall|p: u64| #[trigger] old(self).owner(p) is Some ==> final(self).owner(p) == old(self).owner(p),
    {
        let pos = match self.free_position(phys, self.allocs[id.0].size) {
            Some(pos) => pos,
            None => {
                assert(false);
                0
            },
        };
        let ghost prev = *self;
        let mut rec = self.allocs[id.0];
        rec.base = Some((virt, phys));
        rec.exposed = rec.exposed || expose;
        self.allocs.set(id.0, rec);
        self.int_to_ptr_map.insert(pos, (phys, id));
        proof {
            let m = self.map();
            let pm = prev.map();
            assert(m == pm.insert(pos as int, (phys, id)));
            // `id` had no address, so no old entry names it.
            assert forall|i: int| 0 <= i < pm.len() implies pm[i].1 != id by {
                assert(prev.entry_ok(i));
            }
            assert forall|i: int| 0 <= i < m.len() implies #[trigger] self.entry_size(i) == if i
                < pos {
                prev.entry_size(i)
            } else if i == pos {
                prev.record(id).size
            } else {
                prev.entry_size(i - 1)
            } by {
                if i < pos {
                    assert(prev.entry_ok(i));
                } else if i > pos {
                    assert(prev.entry_ok(i - 1));
                }
            }
            assert forall|i: int| 0 <= i < m.len() implies #[trigger] self.entry_ok(i) by {
                if i < pos {
                    assert(prev.entry_ok(i));
                } else if i > pos {
                    assert(prev.entry_ok(i - 1));
                }
            }
            assert forall|i: int, j: int| 0 <= i < j < m.len() implies m[i].0 + ext(
                self.entry_size(i),
            ) <= #[trigger] m[j].0 && #[trigger] m[i] == m[i] by {
                if j < pos {
                    assert(pm[i].0 + ext(prev.entry_size(i)) <= pm[j].0 && pm[i] == pm[i]);
                } else if j == pos {
                    assert(pm[i].0 + ext(prev.entry_size(i)) <= phys || phys + ext(
                        prev.record(id).size,
                    ) <= pm[i].0);
                } else if i < pos {
                    assert(pm[i].0 + ext(prev.entry_size(i)) <= pm[j - 1].0 && pm[i] == pm[i]);
                } else if i == pos {
                    assert(pm[j - 1].0 + ext(prev.entry_size(j - 1)) <= phys || phys + ext(
                        prev.record(id).size,
                    ) <= pm[j - 1].0);
                } else {
                    assert(pm[i - 1].0 + ext(prev.entry_size(i - 1)) <= pm[j - 1].0 && pm[i - 1]
                        == pm[i - 1]);
                }
            }
            assert forall|k: int|
                0 <= k < self.records().len() && (#[trigger] self.records()[k]).live
                    && self.records()[k].base is Some implies self.in_map(k) by {
                if k == id.0 {
                    assert(m[pos as int].1.0 == k);
                } else {
                    assert(prev.records()[k] == self.records()[k]);
                    assert(prev.in_map(k));
                    let i = choose|i: int| 0 <= i < pm.len() && #[trigger] pm[i].1.0 == k;
                    if i < pos {
                        assert(m[i].1.0 == k);
                    } else {
                        assert(m[i + 1].1.0 == k);
                    }
                }
            }
            assert(self.wf());
            assert(self.covers(pos as int, phys as int));
            self.lemma_owner(pos as int, phys);
            assert forall|p: u64| #[trigger] prev.owner(p) is Some implies self.owner(p)
                == prev.owner(p) by {
                let i = choose|i: int| 0 <= i < pm.len() && #[trigger] prev.covers(i, p as int);
                prev.lemma_owner(i, p);
                let ni = if i < pos {
                    i
                } else {
                    i + 1
                };
                assert(self.covers(ni, p as int));
                self.lemma_owner(ni, p);
            }
        }
    }

    proof fn lemma_id_unique(&self, i: int, j: int)
        requires
            self.wf(),
            0 <= i < self.map().len(),
            0 <= j < self.map().len(),
            self.map()[i].1 == self.map()[j].1,
        ensures
            i == j,
    {
        assert(self.entry_ok(i));
        assert(self.entry_ok(j));
        if i < j {
            self.lemma_sorted(i, j);
        } else if j < i {
            self.lemma_sorted(j, i);
        }
    }

    /// Removes the reverse-map entry of live handle `id` and marks it dead and
    /// unexposed; its base address stays recorded.
    fn retire(&mut self, id: AllocId)
        requires
            old(self).wf(),
            old(self).is_live(id),
            old(self).record(id).base is Some,
        ensures
            final(self).wf(),
            final(self).same_regions(old(self)),
            final(self).pool() == old(self).pool(),
            final(self).records() == old(self).records().update(
                id.0 as int,
                (AllocRecord { live: false, exposed: false, ..old(self).record(id) }),
            ),
            forall|p: u64|
                #[trigger] final(self).owner(p) == if old(self).owner(p) == Some(id) {
                    None
                } else {
                    old(self).owner(p)
                },
    {
        let phys = match self.allocs[id.0].base {
            Some(b) => b.1,
            None => 0,
        };
        proof {
            assert(self.records()[id.0 as int].live);
            assert(self.in_map(id.0 as int));
        }
        let pos = match self.search(phys) {
            Ok(pos) => pos,
            Err(_) => {
                proof {
                    let i = choose|i: int| 0 <= i < self.map().len() && #[trigger] self.map()[i].1.0 == id.0;
                    assert(self.entry_ok(i));
                }
                0
            },
        };
        proof {
            let i = choose|i: int| 0 <= i < self.map().len() && #[trigger] self.map()[i].1.0 == id.0;
            assert(self.entry_ok(i));
            if i < pos {
                self.lemma_sorted(i, pos as int);
            } else if pos < i {
                self.lemma_sorted(pos as int, i);
            }
            assert(self.map()[pos as int].1 == id);
        }
        let ghost prev = *self;
        self.int_to_ptr_map.remove(pos);
        let mut rec = self.allocs[id.0];
        rec.live = false;
        rec.exposed = false;
        self.allocs.set(id.0, rec);
        proof {
            let m = self.map();
            let pm = prev.map();
            assert(m == pm.remove(pos as int));
            assert forall|i: int| 0 <= i < pm.len() && i != pos implies pm[i].1 != id by {
                if pm[i].1 == id {
                    prev.lemma_id_unique(i, pos as int);
                }
            }
            assert forall|i: int| 0 <= i < m.len() implies #[trigger] self.entry_size(i) == if i
                < pos {
                prev.entry_size(i)
            } else {
                prev.entry_size(i + 1)
            } by {
                if i < pos {
                    assert(prev.entry_ok(i));
                } else {
                    assert(prev.entry_ok(i + 1));
                }
            }
            assert forall|i: int| 0 <= i < m.len() implies #[trigger] self.entry_ok(i) by {
                if i < pos {
                    assert(prev.entry_ok(i));
                } else {
                    assert(prev.entry_ok(i + 1));
                }
            }
            assert forall|i: int, j: int| 0 <= i < j < m.len() implies m[i].0 + ext(
                self.entry_size(i),
            ) <= #[trigger] m[j].0 && #[trigger] m[i] == m[i] by {
                let oi = if i < pos {
                    i
                } else {
                    i + 1
                };
                let oj = if j < pos {
                    j
                } else {
                    j + 1
                };
                assert(pm[oi].0 + ext(prev.entry_size(oi)) <= pm[oj].0 && pm[oi] == pm[oi]);
            }
            assert forall|k: int|
                0 <= k < self.records().len() && (#[trigger] self.records()[k]).live
                    && self.records()[k].base is Some implies self.in_map(k) by {
                assert(k != id.0);
                assert(prev.records()[k] == self.records()[k]);
                assert(prev.in_map(k));
                let i = choose|i: int| 0 <= i < pm.len() && #[trigger] pm[i].1.0 == k;
                if i < pos {
                    assert(m[i].1.0 == k);
                } else {
                    assert(m[i - 1].1.0 == k);
                }
            }
            assert(self.wf());
            assert forall|p: u64|
                #[trigger] self.owner(p) == if prev.owner(p) == Some(id) {
                    None
                } else {
                    prev.owner(p)
                } by {
                if exists|i: int| 0 <= i < m.len() && #[trigger] self.covers(i, p as int) {
                    let i = choose|i: int| 0 <= i < m.len() && #[trigger] self.covers(i, p as int);
                    self.lemma_owner(i, p);
                    let oi = if i < pos {
                        i
                    } else {
                        i + 1
                    };
                    assert(prev.covers(oi, p as int));
                    prev.lemma_owner(oi, p);
                } else if exists|i: int| 0 <= i < pm.len() && #[trigger] prev.covers(i, p as int) {
                    let i = choose|i: int| 0 <= i < pm.len() && #[trigger] prev.covers(i, p as int);
                    prev.lemma_owner(i, p);
                    if i != pos {
                        let ni = if i < pos {
                            i
                        } else {
                            i - 1
                        };
                        assert(self.covers(ni, p as int));
                    }
                }
            }
        }
    }

    /// A manager with no allocations and no threads; heap and global addresses
    /// start at `stack_addr`, CPU-local ones at `config.cpu_local_begin`.
    pub fn new(config: &Config, stack_addr: u64) -> (r: GlobalStateInner)
        ensures
            r.wf(),
            r.records().len() == 0,
            r.map().len() == 0,
            r.pool().entries_view().len() == 0,
            r.pool().reuse_rate() == config.address_reuse_rate,
            r.pool().cross_rate() == config.address_reuse_cross_thread_rate,
            r.heap_cursor() == stack_addr,
            r.cpu_local_cursor() == config.cpu_local_begin,
            r.num_threads() == 0,
            r.mode() == config.provenance_mode,
            r.table() is None,
            r.pages().len() == 0,
            r.warned().len() == 0,
            r.cfg() == *config,
    {
        let r = GlobalStateInner {
            int_to_ptr_map: Vec::new(),
            allocs: Vec::new(),
            reuse: ReusePool::new(config.address_reuse_rate, config.address_reuse_cross_thread_rate),
            next_base_addr: stack_addr,
            next_cpu_local_addr: config.cpu_local_begin,
            stack_bottoms: Vec::new(),
            stack_cursors: Vec::new(),
            cpu_local_bases: Vec::new(),
            clocks: Vec::new(),
            provenance_mode: config.provenance_mode,
            page_table: None,
            page_states: Vec::new(),
            past_warnings: Vec::new(),
            config: *config,
        };
        assert(r.clocks_view().len() == 0);
        r
    }

    /// Registers a new live allocation of `size` bytes aligned to `align`;
    /// it has no address until one is asked for.
    pub fn register_alloc(&mut self, size: u64, align: u64) -> (r: AllocId)
        requires
            old(self).wf(),
            align > 0,
            old(self).records().len() < usize::MAX,
        ensures
            final(self).wf(),
            r.0 == old(self).records().len(),
            final(self).records() == old(self).records().push(
                (AllocRecord { size, align, live: true, exposed: false, base: None, origin: Origin::Assigned }),
            ),
            final(self).map() == old(self).map(),
            final(self).same_regions(old(self)),
            final(self).pool() == old(self).pool(),
    {
        self.push_record(AllocRecord { size, align, live: true, exposed: false, base: None, origin: Origin::Assigned })
    }

    fn push_record(&mut self, rec: AllocRecord) -> (r: AllocId)
        requires
            old(self).wf(),
            rec.align > 0,
            rec.live,
            !rec.exposed,
            rec.base is None,
            old(self).records().len() < usize::MAX,
        ensures
            final(self).wf(),
            r.0 == old(self).records().len(),
            final(self).records() == old(self).records().push(rec),
            final(self).map() == old(self).map(),
            final(self).same_regions(old(self)),
            final(self).pool() == old(self).pool(),
            forall|p: u64| #[trigger] final(self).owner(p) == old(self).owner(p),
    {
        let ghost prev = *self;
        let id = AllocId(self.allocs.len());
        self.allocs.push(rec);
        proof {
            assert forall|i: int| 0 <= i < self.map().len() implies #[trigger] self.entry_ok(i) by {
                assert(prev.entry_ok(i));
            }
            assert forall|i: int| 0 <= i < self.map().len() implies #[trigger] self.entry_size(i)
                == prev.entry_size(i) by {
                assert(prev.entry_ok(i));
            }
            assert forall|k: int|
                0 <= k < self.records().len() && (#[trigger] self.records()[k]).live
                    && self.records()[k].base is Some implies self.in_map(k) by {
                assert(prev.records()[k] == self.records()[k]);
                assert(prev.in_map(k));
                let i = choose|i: int| 0 <= i < prev.map().len() && #[trigger] prev.map()[i].1.0 == k;
                assert(self.map()[i].1.0 == k);
            }
            assert(self.wf());
            assert forall|p: u64| #[trigger] self.owner(p) == prev.owner(p) by {
                assert forall|i: int| 0 <= i < self.map().len() implies self.covers(i, p as int)
                    == prev.covers(i, p as int) by {
                    assert(self.entry_size(i) == prev.entry_size(i));
                }
                if exists|i: int| 0 <= i < self.map().len() && #[trigger] self.covers(i, p as int) {
                    let i = choose|i: int| 0 <= i < self.map().len() && #[trigger] self.covers(i, p as int);
                    self.lemma_owner(i, p);
                    prev.lemma_owner(i, p);
                }
            }
        }
        id
    }

    /// Adds a thread whose stack spans `[stack_bottom, stack_top)` and whose
    /// CPU-local window starts at `cpu_local_base`; returns its index.
    pub fn add_thread(&mut self, stack_bottom: u64, stack_top: u64, cpu_local_base: u64) -> (r: usize)
        requires
            old(self).wf(),
        ensures
            final(self).wf(),
            r == old(self).num_threads(),
            final(self).stack_bottoms_view() == old(self).stack_bottoms_view().push(stack_bottom),
            final(self).stack_cursors_view() == old(self).stack_cursors_view().push(stack_top),
            final(self).cpu_local_bases_view() == old(self).cpu_local_bases_view().push(cpu_local_base),
            final(self).clocks_view() == old(self).clocks_view().push(Seq::<u64>::empty()),
            final(self).records() == old(self).records(),
            final(self).map() == old(self).map(),
            final(self).pool() == old(self).pool(),
            final(self).heap_cursor() == old(self).heap_cursor(),
            final(self).cpu_local_cursor() == old(self).cpu_local_cursor(),
            final(self).mode() == old(self).mode(),
            final(self).table() == old(self).table(),
            final(self).pages() == old(self).pages(),
            final(self).warned() == old(self).warned(),
            final(self).cfg() == old(self).cfg(),
    {
        let r = self.stack_cursors.len();
        self.stack_bottoms.push(stack_bottom);
        self.stack_cursors.push(stack_top);
        self.cpu_local_bases.push(cpu_local_base);
        let ghost cs = self.clocks@;
        self.clocks.push(VClock::new());
        proof {
            self.lemma_wf_frame(old(self));
            assert(self.clocks_view() =~= old(self).clocks_view().push(Seq::<u64>::empty()));
        }
        r
    }

    /// Turns on page-table emulation with `page_table`.
    pub fn set_page_table(&mut self, page_table: PageTable)
        requires
            old(self).wf(),
            page_table.wf(),
        ensures
            final(self).wf(),
            final(self).table() == Some(page_table),
            final(self).records() == old(self).records(),
            final(self).map() == old(self).map(),
            final(self).pool() == old(self).pool(),
            final(self).heap_cursor() == old(self).heap_cursor(),
            final(self).cpu_local_cursor() == old(self).cpu_local_cursor(),
            final(self).stack_cursors_view() == old(self).stack_cursors_view(),
            final(self).cpu_local_bases_view() == old(self).cpu_local_bases_view(),
            final(self).clocks_view() == old(self).clocks_view(),
            final(self).pages() == old(self).pages(),
    {
        let ghost prev = *self;
        self.page_table = Some(page_table);
        proof {
            self.lemma_wf_frame(&prev);
        }
    }

    /// Sets the state of every physical page, indexed by page number; pages
    /// past the end are untyped.
    pub fn set_page_states(&mut self, states: Vec<PageState>)
        requires
            old(self).wf(),
        ensures
            final(self).wf(),
            final(self).pages() == states@,
            final(self).records() == old(self).records(),
            final(self).map() == old(self).map(),
            final(self).pool() == old(self).pool(),
            final(self).table() == old(self).table(),
            final(self).mode() == old(self).mode(),
    {
        let ghost prev = *self;
        self.page_states = states;
        proof {
            self.lemma_wf_frame(&prev);
        }
    }

    /// Gives live handle `alloc_id`, which has no address yet, the base
    /// `(vaddr, paddr)` and exposes it. Refused, with nothing changed, where
    /// the range would overlap a live allocation.
    pub fn set_address(&mut self, alloc_id: AllocId, vaddr: u64, paddr: u64) -> (r: bool)
        requires
            old(self).wf(),
            old(self).is_live(alloc_id),
            old(self).record(alloc_id).base is None,
        ensures
            final(self).wf(),
            r == old(self).range_free(paddr, old(self).record(alloc_id).size),
            !r ==> *final(self) == *old(self),
            r ==> final(self).records() == old(self).records().update(
                alloc_id.0 as int,
                (AllocRecord { base: Some((vaddr, paddr)), exposed: true, ..old(self).record(alloc_id) }),
            ),
            r ==> final(self).owner(paddr) == Some(alloc_id),
            final(self).same_regions(old(self)),
            final(self).pool() == old(self).pool(),
    {
        match self.free_position(paddr, self.allocs[alloc_id.0].size) {
            Some(_) => {
                self.insert_mapped(alloc_id, vaddr, paddr, true);
                true
            },
            None => false,
        }
    }

    /// Exposes live `alloc_id` for wildcard resolution, unless the policy is
    /// strict. Returns whether it did, so that the caller forwards the
    /// exposure to a tag tracker.
    pub fn expose_ptr(&mut self, alloc_id: AllocId) -> (r: bool)
        requires
            old(self).wf(),
            old(self).valid_id(alloc_id),
        ensures
            final(self).wf(),
            r == (old(self).mode() != ProvenanceMode::Strict && old(self).is_live(alloc_id)),
            !r ==> *final(self) == *old(self),
            r ==> final(self).records() == old(self).records().update(
                alloc_id.0 as int,
                (AllocRecord { exposed: true, ..old(self).record(alloc_id) }),
            ),
            final(self).map() == old(self).map(),
            final(self).same_regions(old(self)),
            final(self).pool() == old(self).pool(),
    {
        if self.provenance_mode == ProvenanceMode::Strict {
            return false;
        }
        if !self.allocs[alloc_id.0].live {
            return false;
        }
        let ghost prev = *self;
        let mut rec = self.allocs[alloc_id.0];
        rec.exposed = true;
        self.allocs.set(alloc_id.0, rec);
        proof {
            assert forall|i: int| 0 <= i < self.map().len() implies #[trigger] self.entry_ok(i) by {
                assert(prev.entry_ok(i));
            }
            assert forall|k: int|
                0 <= k < self.records().len() && (#[trigger] self.records()[k]).live
                    && self.records()[k].base is Some implies self.in_map(k) by {
                assert(prev.records()[k].live && prev.records()[k].base is Some);
                assert(prev.in_map(k));
                let i = choose|i: int| 0 <= i < prev.map().len() && #[trigger] prev.map()[i].1.0 == k;
                assert(self.map()[i].1.0 == k);
            }
            assert forall|i: int, j: int| 0 <= i < j < self.map().len() implies self.map()[i].0 + ext(
                self.entry_size(i),
            ) <= #[trigger] self.map()[j].0 && #[trigger] self.map()[i] == self.map()[i] by {
                assert(prev.entry_ok(i));
                assert(prev.map()[i].0 + ext(prev.entry_size(i)) <= prev.map()[j].0 && prev.map()[i] == prev.map()[i]);
            }
        }
        true
    }

    /// The warning a cast at `span` is due: under the default policy, one at
    /// each location not warned about before.
    pub open spec fn cast_warning(&self, span: u64) -> Option<bool> {
        if self.mode() == ProvenanceMode::Default && !self.warned().contains(span) {
            Some(self.warned().len() == 0)
        } else {
            None
        }
    }

    /// The locations warned about after a successful cast at `span`.
    pub open spec fn warned_after_cast(&self, span: u64) -> Seq<u64> {
        if self.mode() == ProvenanceMode::Default && !self.warned().contains(span) {
            self.warned().push(span)
        } else {
            self.warned()
        }
    }

    /// Casts integer `addr` to a pointer at source location `span`. The
    /// pointer has wildcard provenance: its allocation is looked up at each
    /// access, not now.
    pub fn ptr_from_addr_cast(&mut self, addr: u64, span: u64) -> (r: Result<IntCast, ProvenanceError>)
        requires
            old(self).wf(),
        ensures
            final(self).wf(),
            final(self).records() == old(self).records(),
            final(self).map() == old(self).map(),
            final(self).pool() == old(self).pool(),
            final(self).mode() == old(self).mode(),
            (old(self).mode() == ProvenanceMode::Strict) == (r is Err),
            (r is Err) ==> *final(self) == *old(self),
            r matches Ok(c) ==> (c.ptr == (Pointer { provenance: Provenance::Wildcard, addr })),
            r matches Ok(c) ==> c.warning == old(self).cast_warning(span),
            (r is Ok) ==> final(self).warned() == old(self).warned_after_cast(span),
    {
        let ptr = Pointer { provenance: Provenance::Wildcard, addr };
        match self.provenance_mode {
            ProvenanceMode::Strict => Err(ProvenanceError::Int2PtrWithStrictProvenance),
            ProvenanceMode::Permissive => Ok(IntCast { ptr, warning: None }),
            ProvenanceMode::Default => {
                let first = self.past_warnings.len() == 0;
                let mut seen = false;
                let mut i: usize = 0;
                while i < self.past_warnings.len()
                    invariant
                        i <= self.past_warnings@.len(),
                        seen == exists|j: int| 0 <= j < i && self.past_warnings@[j] == span,
                    decreases self.past_warnings@.len() - i,
                {
                    if self.past_warnings[i] == span {
                        seen = true;
                    }
                    i = i + 1;
                }
                proof {
                    if seen {
                        let j = choose|j: int| 0 <= j < i && self.past_warnings@[j] == span;
                        assert(self.warned()[j] == span);
                    }
                }
                if seen {
                    Ok(IntCast { ptr, warning: None })
                } else {
                    let ghost prev = *self;
                    self.past_warnings.push(span);
                    proof {
                        self.lemma_wf_frame(&prev);
                    }
                    Ok(IntCast { ptr, warning: Some(first) })
                }
            },
        }
    }

    /// Records that `dead_id` died: its entry leaves the reverse map and the
    /// exposed set, its base address stays recorded, and its range is offered
    /// to the reuse pool with the freeing thread's clock where clocks are tracked.
    pub fn free_alloc_id(&mut self, dead_id: AllocId, kind: MemoryKind, thread: usize, draws: Draws)
        requires
            old(self).wf(),
            old(self).is_live(dead_id),
            old(self).record(dead_id).base is Some,
            thread < old(self).num_threads(),
        ensures
            final(self).wf(),
            final(self).same_regions(old(self)),
            final(self).records() == old(self).records().update(
                dead_id.0 as int,
                (AllocRecord { live: false, exposed: false, ..old(self).record(dead_id) }),
            ),
            forall|p: u64|
                #[trigger] final(self).owner(p) == if old(self).owner(p) == Some(dead_id) {
                    None
                } else {
                    old(self).owner(p)
                },
            final(self).pool().reuse_rate() == old(self).pool().reuse_rate(),
            final(self).pool().cross_rate() == old(self).pool().cross_rate(),
            exists|e: ReuseEntry|
                #[trigger] old(self).freed_entry(e, dead_id, kind, thread)
                    && final(self).pool().entries_view() == added_entries(
                    old(self).pool().entries_view(),
                    old(self).pool().reuse_rate(),
                    draws,
                    e,
                ),
    {
        let rec = self.allocs[dead_id.0];
        let virt = match rec.base {
            Some(b) => b.0,
            None => 0,
        };
        self.retire(dead_id);
        let clock = if self.config.track_clocks {
            Some(self.clocks[thread].copy())
        } else {
            None
        };
        let ghost e = ReuseEntry { addr: virt, size: rec.size, align: rec.align, kind, thread, clock };
        proof {
            assert(self.clocks_view()[thread as int] == self.clocks@[thread as int]@);
        }
        let ghost prev = *self;
        self.reuse.add_addr(draws, virt, rec.size, rec.align, kind, thread, clock);
        proof {
            self.lemma_wf_frame(&prev);
            self.lemma_owner_frame(&prev);
            assert(old(self).freed_entry(e, dead_id, kind, thread));
        }
    }

    /// `e` is the pool entry for the range of `id` freed by `thread` in region `kind`.
    pub open spec fn freed_entry(&self, e: ReuseEntry, id: AllocId, kind: MemoryKind, thread: usize) -> bool {
        &&& self.record(id).base matches Some(b) && e.addr == b.0
        &&& e.size == self.record(id).size
        &&& e.align == self.record(id).align
        &&& e.kind == kind
        &&& e.thread == thread
        &&& match e.clock {
            Some(c) => self.cfg().track_clocks && c@ == self.clocks_view()[thread as int],
            None => !self.cfg().track_clocks,
        }
    }

    fn forget_base(&mut self, k: usize)
        requires
            old(self).wf(),
            k < old(self).records().len(),
            !old(self).records()[k as int].live,
        ensures
            final(self).wf(),
            final(self).records() == old(self).records().update(
                k as int,
                (AllocRecord { base: None, ..old(self).records()[k as int] }),
            ),
            final(self).map() == old(self).map(),
            final(self).same_regions(old(self)),
            final(self).pool() == old(self).pool(),
    {
        let ghost prev = *self;
        let mut rec = self.allocs[k];
        rec.base = None;
        self.allocs.set(k, rec);
        proof {
            assert forall|i: int| 0 <= i < self.map().len() implies #[trigger] self.entry_ok(i) by {
                assert(prev.entry_ok(i));
            }
            assert forall|j: int|
                0 <= j < self.records().len() && (#[trigger] self.records()[j]).live
                    && self.records()[j].base is Some implies self.in_map(j) by {
                assert(prev.records()[j] == self.records()[j]);
                assert(prev.in_map(j));
                let i = choose|i: int| 0 <= i < prev.map().len() && #[trigger] prev.map()[i].1.0 == j;
                assert(self.map()[i].1.0 == j);
            }
            assert forall|i: int, j: int| 0 <= i < j < self.map().len() implies self.map()[i].0 + ext(
                self.entry_size(i),
            ) <= #[trigger] self.map()[j].0 && #[trigger] self.map()[i] == self.map()[i] by {
                assert(prev.entry_ok(i));
                assert(prev.map()[i].0 + ext(prev.entry_size(i)) <= prev.map()[j].0 && prev.map()[i]
                    == prev.map()[i]);
            }
        }
    }

    /// Forgets the base address of every dead allocation that is not in
    /// `reachable`: nothing can ask for it any more.
    pub fn remove_unreachable_allocs(&mut self, reachable: &Vec<AllocId>)
        requires
            old(self).wf(),
        ensures
            final(self).wf(),
            final(self).records().len() == old(self).records().len(),
            forall|k: int|
                0 <= k < old(self).records().len() ==> #[trigger] final(self).records()[k] == if !old(
                    self,
                ).records()[k].live && !reachable@.contains(AllocId(k as usize)) {
                    AllocRecord { base: None, ..old(self).records()[k] }
                } else {
                    old(self).records()[k]
                },
            final(self).map() == old(self).map(),
            final(self).same_regions(old(self)),
            final(self).pool() == old(self).pool(),
    {
        let n = self.allocs.len();
        let mut k: usize = 0;
        while k < n
            invariant
                self.wf(),
                k <= n,
                n == old(self).records().len(),
                self.records().len() == n,
                forall|j: int|
                    0 <= j < k ==> #[trigger] self.records()[j] == if !old(self).records()[j].live
                        && !reachable@.contains(AllocId(j as usize)) {
                        AllocRecord { base: None, ..old(self).records()[j] }
                    } else {
                        old(self).records()[j]
                    },
                forall|j: int| k <= j < n ==> #[trigger] self.records()[j] == old(self).records()[j],
                self.map() == old(self).map(),
                self.same_regions(old(self)),
                self.pool() == old(self).pool(),
            decreases n - k,
        {
            if !self.allocs[k].live && !contains_id(reachable, AllocId(k)) {
                self.forget_base(k);
            }
            k = k + 1;
        }
    }

    /// A fresh address for `id` in region `kind` and the region's cursor
    /// after it, where the region has room. Stack addresses grow down from
    /// the thread's cursor; others grow up from the shared cursor, `slack`
    /// bytes past it and rounded up to the alignment.
    pub open spec fn fresh_addr(&self, id: AllocId, kind: MemoryKind, thread: usize, slack: u64) -> Option<(u64, u64)> {
        let size = self.record(id).size;
        let align = self.record(id).align as int;
        if kind == MemoryKind::Stack {
            let cur = self.stack_cursors_view()[thread as int] as int;
            let bottom = self.stack_bottoms_view()[thread as int] as int;
            let b = cur - ext(size);
            let base = b - b % align;
            if b < 0 || base < bottom {
                None
            } else {
                Some((base as u64, base as u64))
            }
        } else {
            let cur = if kind == MemoryKind::CpuLocal {
                self.cpu_local_cursor()
            } else {
                self.heap_cursor()
            };
            let limit = if kind == MemoryKind::CpuLocal {
                self.cfg().cpu_local_limit
            } else {
                self.cfg().heap_limit
            };
            let b = cur + slack;
            let base = align_up(b, align);
            let next = base + ext(size);
            if b > u64::MAX || base >= limit || next > self.cfg().target_usize_max {
                None
            } else {
                Some((base as u64, next as u64))
            }
        }
    }

    /// The pool entry that a request for `id` takes, if the roll lets it use the pool.
    pub open spec fn reuse_pick(&self, id: AllocId, kind: MemoryKind, thread: usize, draws: Draws) -> Option<int> {
        let s = self.pool().entries_view();
        let cross = self.pool().cross_allowed(draws);
        let size = self.record(id).size;
        let align = self.record(id).align;
        if draws.reuse_roll < self.pool().reuse_rate() && exists|i: int|
            #[trigger] last_compatible(s, i, size, align, kind, thread, cross) {
            Some(choose|i: int| #[trigger] last_compatible(s, i, size, align, kind, thread, cross))
        } else {
            None
        }
    }

    /// The address a request for `id` gets before translation: a reused one, or a fresh one.
    pub open spec fn uncached_addr(&self, id: AllocId, kind: MemoryKind, thread: usize, draws: Draws) -> Option<u64> {
        match self.reuse_pick(id, kind, thread, draws) {
            Some(i) => Some(self.pool().entries_view()[i].addr),
            None => match self.fresh_addr(id, kind, thread, draws.slack) {
                Some(f) => Some(f.0),
                None => None,
            },
        }
    }

    /// `after` is `self` once a request for `id` has taken an address: a
    /// reused range leaves the pool and its clock is merged into the
    /// requesting thread's; a fresh address moves the region's cursor.
    pub open spec fn after_uncached(
        &self,
        after: &GlobalStateInner,
        id: AllocId,
        kind: MemoryKind,
        thread: usize,
        draws: Draws,
    ) -> bool {
        let s = self.pool().entries_view();
        &&& after.pool().reuse_rate() == self.pool().reuse_rate()
        &&& after.pool().cross_rate() == self.pool().cross_rate()
        &&& after.stack_bottoms_view() == self.stack_bottoms_view()
        &&& after.cpu_local_bases_view() == self.cpu_local_bases_view()
        &&& after.mode() == self.mode()
        &&& after.table() == self.table()
        &&& after.pages() == self.pages()
        &&& after.warned() == self.warned()
        &&& after.cfg() == self.cfg()
        &&& match self.reuse_pick(id, kind, thread, draws) {
            Some(i) => {
                &&& after.pool().entries_view() == s.remove(i)
                &&& after.heap_cursor() == self.heap_cursor()
                &&& after.cpu_local_cursor() == self.cpu_local_cursor()
                &&& after.stack_cursors_view() == self.stack_cursors_view()
                &&& after.clocks_view() == match s[i].clock {
                    Some(c) => self.clocks_view().update(
                        thread as int,
                        join_spec(self.clocks_view()[thread as int], c@),
                    ),
                    None => self.clocks_view(),
                }
            },
            None => {
                &&& after.pool() == self.pool()
                &&& after.clocks_view() == self.clocks_view()
                &&& after.heap_cursor() == match self.fresh_addr(id, kind, thread, draws.slack) {
                    Some(f) if kind == MemoryKind::Heap => f.1,
                    _ => self.heap_cursor(),
                }
                &&& after.cpu_local_cursor() == match self.fresh_addr(id, kind, thread, draws.slack) {
                    Some(f) if kind == MemoryKind::CpuLocal => f.1,
                    _ => self.cpu_local_cursor(),
                }
                &&& after.stack_cursors_view() == match self.fresh_addr(id, kind, thread, draws.slack) {
                    Some(f) if kind == MemoryKind::Stack => self.stack_cursors_view().update(
                        thread as int,
                        f.1,
                    ),
                    _ => self.stack_cursors_view(),
                }
            },
        }
    }

    proof fn lemma_last_unique(s: Seq<ReuseEntry>, i: int, j: int, size: u64, align: u64, kind: MemoryKind, thread: usize, cross: bool)
        requires
            last_compatible(s, i, size, align, kind, thread, cross),
            last_compatible(s, j, size, align, kind, thread, cross),
        ensures
            i == j,
    {
        if i < j {
            assert(!crate::reuse_pool::compatible(s[j], size, align, kind, thread, cross));
        } else if j < i {
            assert(!crate::reuse_pool::compatible(s[i], size, align, kind, thread, cross));
        }
    }

    fn fresh_address(&mut self, id: AllocId, kind: MemoryKind, thread: usize, slack: u64) -> (r: Result<u64, AllocError>)
        requires
            old(self).wf(),
            old(self).valid_id(id),
            thread < old(self).num_threads(),
        ensures
            final(self).wf(),
            final(self).records() == old(self).records(),
            final(self).map() == old(self).map(),
            final(self).pool() == old(self).pool(),
            final(self).clocks_view() == old(self).clocks_view(),
            final(self).stack_bottoms_view() == old(self).stack_bottoms_view(),
            final(self).cpu_local_bases_view() == old(self).cpu_local_bases_view(),
            final(self).mode() == old(self).mode(),
            final(self).table() == old(self).table(),
            final(self).pages() == old(self).pages(),
            final(self).warned() == old(self).warned(),
            final(self).cfg() == old(self).cfg(),
            r == match old(self).fresh_addr(id, kind, thread, slack) {
                Some(f) => Ok(f.0),
                None => Err(AllocError::AddressSpaceFull),
            },
            final(self).heap_cursor() == match old(self).fresh_addr(id, kind, thread, slack) {
                Some(f) if kind == MemoryKind::Heap => f.1,
                _ => old(self).heap_cursor(),
            },
            final(self).cpu_local_cursor() == match old(self).fresh_addr(id, kind, thread, slack) {
                Some(f) if kind == MemoryKind::CpuLocal => f.1,
                _ => old(self).cpu_local_cursor(),
            },
            final(self).stack_cursors_view() == match old(self).fresh_addr(id, kind, thread, slack) {
                Some(f) if kind == MemoryKind::Stack => old(self).stack_cursors_view().update(thread as int, f.1),
                _ => old(self).stack_cursors_view(),
            },
    {
        let size = self.allocs[id.0].size;
        let align = self.allocs[id.0].align;
        proof {
            assert(self.records()[id.0 as int].align > 0);
        }
        let e: u64 = if size == 0 {
            1
        } else {
            size
        };
        let ghost prev = *self;
        if kind == MemoryKind::Stack {
            let cur = self.stack_cursors[thread];
            if cur < e {
                return Err(AllocError::AddressSpaceFull);
            }
            let b = cur - e;
            proof {
                assert(b % align <= b) by (nonlinear_arith)
                    requires
                        align > 0,
                ;
            }
            let base = b - b % align;
            if base < self.stack_bottoms[thread] {
                return Err(AllocError::AddressSpaceFull);
            }
            self.stack_cursors.set(thread, base);
            proof {
                self.lemma_wf_frame(&prev);
            }
            Ok(base)
        } else {
            let cur = if kind == MemoryKind::CpuLocal {
                self.next_cpu_local_addr
            } else {
                self.next_base_addr
            };
            let limit = if kind == MemoryKind::CpuLocal {
                self.config.cpu_local_limit
            } else {
                self.config.heap_limit
            };
            if cur > u64::MAX - slack {
                return Err(AllocError::AddressSpaceFull);
            }
            let b = cur + slack;
            let rem = b % align;
            if rem != 0 && b > u64::MAX - (align - rem) {
                return Err(AllocError::AddressSpaceFull);
            }
            let base = align_addr(b, align);
            if base >= limit {
                return Err(AllocError::AddressSpaceFull);
            }
            if base > u64::MAX - e {
                return Err(AllocError::AddressSpaceFull);
            }
            let next = base + e;
            if next > self.config.target_usize_max {
                return Err(AllocError::AddressSpaceFull);
            }
            if kind == MemoryKind::CpuLocal {
                self.next_cpu_local_addr = next;
            } else {
                self.next_base_addr = next;
            }
            proof {
                self.lemma_wf_frame(&prev);
            }
            Ok(base)
        }
    }

    /// Picks an address for `id`, which has none yet: a compatible range
    /// from the reuse pool, whose clock the requesting thread then acquires,
    /// or else a fresh one from the region of `memory_kind`.
    pub fn addr_from_alloc_id_uncached(
        &mut self,
        alloc_id: AllocId,
        memory_kind: MemoryKind,
        thread: usize,
        draws: Draws,
    ) -> (r: Result<u64, AllocError>)
        requires
            old(self).wf(),
            old(self).is_live(alloc_id),
            thread < old(self).num_threads(),
            draws.wf(),
        ensures
            final(self).wf(),
            final(self).records() == old(self).records(),
            final(self).map() == old(self).map(),
            old(self).after_uncached(final(self), alloc_id, memory_kind, thread, draws),
            r == match old(self).uncached_addr(alloc_id, memory_kind, thread, draws) {
                Some(a) => Ok(a),
                None => Err(AllocError::AddressSpaceFull),
            },
    {
        let size = self.allocs[alloc_id.0].size;
        let align = self.allocs[alloc_id.0].align;
        let ghost prev = *self;
        let ghost s = self.pool().entries_view();
        let ghost cross = self.pool().cross_allowed(draws);
        match self.reuse.take_addr(draws, size, align, memory_kind, thread) {
            Some((addr, clock)) => {
                proof {
                    let i = choose|i: int|
                        #[trigger] last_compatible(s, i, size, align, memory_kind, thread, cross) && Some((addr, clock))
                            == Some((s[i].addr, s[i].clock)) && self.pool().entries_view() == s.remove(i);
                    let k = choose|k: int| #[trigger] last_compatible(s, k, size, align, memory_kind, thread, cross);
                    Self::lemma_last_unique(s, i, k, size, align, memory_kind, thread, cross);
                }
                match clock {
                    Some(c) => {
                        let joined = self.clocks[thread].joined(&c);
                        self.clocks.set(thread, joined);
                        proof {
                            assert(self.clocks_view() =~= prev.clocks_view().update(
                                thread as int,
                                join_spec(prev.clocks_view()[thread as int], c@),
                            ));
                        }
                    },
                    None => {},
                }
                proof {
                    self.lemma_wf_frame(&prev);
                }
                Ok(addr)
            },
            None => {
                proof {
                    if draws.reuse_roll < prev.pool().reuse_rate() && exists|i: int|
                        #[trigger] last_compatible(s, i, size, align, memory_kind, thread, cross) {
                        let i = choose|i: int| #[trigger] last_compatible(s, i, size, align, memory_kind, thread, cross);
                        assert(crate::reuse_pool::compatible(s[i], size, align, memory_kind, thread, cross));
                    }
                }
                self.fresh_address(alloc_id, memory_kind, thread, draws.slack)
            },
        }
    }

    /// The physical address an assignment of `id` ends at, and whether it is owed:
    /// the uncached address translates and its range overlaps nothing live.
    pub open spec fn assign_target(&self, id: AllocId, kind: MemoryKind, thread: usize, draws: Draws) -> Option<(u64, u64)> {
        match self.uncached_addr(id, kind, thread, draws) {
            Some(v) => match self.translate(v) {
                Some(p) => if self.range_free(p, self.record(id).size) {
                    Some((v, p))
                } else {
                    None
                },
                None => None,
            },
            None => None,
        }
    }

    /// The address of `alloc_id`: the recorded one, or on first request a
    /// new one, entered in the reverse map under its physical address.
    pub fn addr_from_alloc_id(
        &mut self,
        alloc_id: AllocId,
        memory_kind: MemoryKind,
        thread: usize,
        draws: Draws,
    ) -> (r: Result<u64, AllocError>)
        requires
            old(self).wf(),
            old(self).valid_id(alloc_id),
            old(self).record(alloc_id).base is Some || old(self).record(alloc_id).live,
            thread < old(self).num_threads(),
            draws.wf(),
        ensures
            final(self).wf(),
            old(self).record(alloc_id).base matches Some(b) ==> r == Ok::<u64, AllocError>(b.0) && *final(self) == *old(self),
            old(self).record(alloc_id).base is None ==> old(self).after_uncached(final(self), alloc_id, memory_kind, thread, draws),
            old(self).record(alloc_id).base is None ==> r == match old(self).assign_target(alloc_id, memory_kind, thread, draws) {
                Some(t) => Ok(t.0),
                None => Err(AllocError::AddressSpaceFull),
            },
            old(self).record(alloc_id).base is None ==> match old(self).assign_target(alloc_id, memory_kind, thread, draws) {
                Some(t) => {
                    &&& final(self).records() == old(self).records().update(
                        alloc_id.0 as int,
                        (AllocRecord { base: Some(t), ..old(self).record(alloc_id) }),
                    )
                    &&& final(self).owner(t.1) == Some(alloc_id)
                    &&& forall|p: u64| #[trigger] old(self).owner(p) is Some ==> final(self).owner(p) == old(self).owner(p)
                },
                None => final(self).records() == old(self).records() && final(self).map() == old(self).map(),
            },
    {
        match self.allocs[alloc_id.0].base {
            Some(b) => {
                return Ok(b.0);
            },
            None => {},
        }
        let ghost prev = *self;
        let v = match self.addr_from_alloc_id_uncached(alloc_id, memory_kind, thread, draws) {
            Ok(v) => v,
            Err(e) => {
                return Err(e);
            },
        };
        let p = match &self.page_table {
            Some(t) => match t.page_walk(v) {
                Some(p) => p,
                None => {
                    return Err(AllocError::AddressSpaceFull);
                },
            },
            None => v,
        };
        let size = self.allocs[alloc_id.0].size;
        proof {
            self.lemma_owner_frame(&prev);
            assert forall|i: int| 0 <= i < self.map().len() implies #[trigger] self.entry_size(i)
                == prev.entry_size(i) by {}
        }
        match self.free_position(p, size) {
            None => {
                assert(!prev.range_free(p, size)) by {
                    assert forall|i: int| 0 <= i < self.map().len() implies #[trigger] self.entry_size(i)
                        == prev.entry_size(i) by {}
                }
                Err(AllocError::AddressSpaceFull)
            },
            Some(_) => {
                assert(prev.range_free(p, size)) by {
                    assert forall|i: int| 0 <= i < self.map().len() implies #[trigger] self.entry_size(i)
                        == prev.entry_size(i) by {}
                }
                let ghost mid = *self;
                self.insert_mapped(alloc_id, v, p, false);
                assert(prev.assign_target(alloc_id, memory_kind, thread, draws) == Some((v, p)));
                assert(self.records() == prev.records().update(
                    alloc_id.0 as int,
                    (AllocRecord { base: Some((v, p)), ..prev.record(alloc_id) }),
                ));
                assert(self.owner(p) == Some(alloc_id));
                assert forall|q: u64| #[trigger] prev.owner(q) is Some implies self.owner(q) == prev.owner(q) by {
                    assert(mid.owner(q) == prev.owner(q));
                }
                Ok(v)
            },
        }
    }

    /// The state of the physical page holding `p`; pages without a recorded
    /// state are untyped.
    pub open spec fn page_state_at(&self, p: u64) -> PageState {
        let n = p / self.table().unwrap().size_of_page();
        if n < self.pages().len() {
            self.pages()[n as int]
        } else {
            PageState::Untyped
        }
    }

    /// On a typed page, the element slot holding `p`.
    pub open spec fn typed_plan(&self, vp: u64, p: u64) -> Option<Materialization> {
        match self.page_state_at(p) {
            PageState::Typed { type_size } => if type_size > 0 && p % type_size <= vp {
                Some(
                    Materialization {
                        size: type_size,
                        align: type_size,
                        phys: (p - p % type_size) as u64,
                        virt: (vp - p % type_size) as u64,
                        origin: Origin::TypedPage,
                    },
                )
            } else {
                None
            },
            PageState::Untyped => None,
        }
    }

    /// Inside the CPU-local window of `thread`, a private copy of the
    /// allocation at the same offset of thread zero's window.
    pub open spec fn cpu_local_plan(&self, vp: u64, p: u64, thread: usize) -> Option<Materialization> {
        let cur = self.cpu_local_bases_view()[thread as int];
        let tv = self.cpu_local_bases_view()[0] + (vp - cur);
        if cur <= vp && vp < cur + self.cfg().cpu_local_size && tv <= u64::MAX {
            match self.translate(tv as u64) {
                Some(tp) => match self.owner(tp) {
                    Some(t) => {
                        let off = tp - self.record(t).base.unwrap().1;
                        if off <= p && off <= vp {
                            Some(
                                Materialization {
                                    size: self.record(t).size,
                                    align: self.record(t).align,
                                    phys: (p - off) as u64,
                                    virt: (vp - off) as u64,
                                    origin: Origin::CpuLocalCopy { template: t },
                                },
                            )
                        } else {
                            None
                        }
                    },
                    None => None,
                },
                None => None,
            }
        } else {
            None
        }
    }

    /// What a miss at virtual `vp` (physical `p`) synthesizes in page-table mode.
    pub open spec fn materialization(&self, vp: u64, p: u64, thread: usize) -> Option<Materialization> {
        if self.table() is None {
            None
        } else if self.typed_plan(vp, p) is Some {
            self.typed_plan(vp, p)
        } else {
            self.cpu_local_plan(vp, p, thread)
        }
    }

    /// What an access of signed size `size` at virtual `vaddr` by `thread` finds.
    pub open spec fn lookup(&self, vaddr: u64, size: i64, thread: usize) -> Lookup {
        let vp = probe(vaddr, size);
        match self.translate(vp) {
            None => Lookup::Miss,
            Some(p) => match self.owner(p) {
                Some(id) => Lookup::Owned(id),
                None => match self.materialization(vp, p, thread) {
                    Some(m) => if self.range_free(m.phys, m.size) {
                        Lookup::Materialize(m)
                    } else {
                        Lookup::Miss
                    },
                    None => Lookup::Miss,
                },
            },
        }
    }

    /// `after` is `self` with the allocation `m` synthesized under the next handle.
    pub open spec fn materialized(&self, after: &GlobalStateInner, m: Materialization) -> bool {
        let id = AllocId(self.records().len() as usize);
        &&& after.records() == self.records().push(record_of(m))
        &&& after.owner(m.phys) == Some(id)
        &&& forall|q: u64| #[trigger] self.owner(q) is Some ==> after.owner(q) == self.owner(q)
        &&& after.same_regions(self)
        &&& after.pool() == self.pool()
    }

    fn translate_addr(&self, v: u64) -> (r: Option<u64>)
        requires
            self.wf(),
        ensures
            r == self.translate(v),
    {
        match &self.page_table {
            Some(t) => t.page_walk(v),
            None => Some(v),
        }
    }

    fn plan_materialization(&self, vp: u64, p: u64, thread: usize) -> (r: Option<Materialization>)
        requires
            self.wf(),
            thread < self.num_threads(),
        ensures
            r == self.materialization(vp, p, thread),
            r matches Some(m) ==> m.align > 0,
    {
        let t = match &self.page_table {
            None => {
                return None;
            },
            Some(t) => t,
        };
        let n = p / t.page_size();
        let st = if n < self.page_states.len() as u64 {
            self.page_states[n as usize]
        } else {
            PageState::Untyped
        };
        match st {
            PageState::Typed { type_size } => {
                if type_size > 0 && p % type_size <= vp {
                    proof {
                        assert(p % type_size <= p) by (nonlinear_arith)
                            requires
                                type_size > 0,
                        ;
                    }
                    return Some(
                        Materialization {
                            size: type_size,
                            align: type_size,
                            phys: p - p % type_size,
                            virt: vp - p % type_size,
                            origin: Origin::TypedPage,
                        },
                    );
                }
            },
            PageState::Untyped => {},
        }
        let cur = self.cpu_local_bases[thread];
        if vp < cur || vp - cur >= self.config.cpu_local_size {
            return None;
        }
        let base0 = self.cpu_local_bases[0];
        if base0 > u64::MAX - (vp - cur) {
            return None;
        }
        let tp = match self.translate_addr(base0 + (vp - cur)) {
            Some(tp) => tp,
            None => {
                return None;
            },
        };
        let i = match self.find_owner(tp) {
            Some(i) => i,
            None => {
                return None;
            },
        };
        let (tbase, tid) = self.int_to_ptr_map[i];
        proof {
            assert(self.entry_ok(i as int));
        }
        let off = tp - tbase;
        if off > p || off > vp {
            return None;
        }
        let rec = self.allocs[tid.0];
        Some(
            Materialization {
                size: rec.size,
                align: rec.align,
                phys: p - off,
                virt: vp - off,
                origin: Origin::CpuLocalCopy { template: tid },
            },
        )
    }

    /// The exposed allocation that an access of signed size `size` at virtual
    /// `vaddr` by `thread` goes to. In page-table mode a miss may synthesize
    /// an allocation first: an element slot of a typed page, or a private copy
    /// of a CPU-local template.
    pub fn alloc_id_from_addr(&mut self, vaddr: u64, size: i64, thread: usize) -> (r: Option<AllocId>)
        requires
            old(self).wf(),
            old(self).mode() != ProvenanceMode::Strict,
            thread < old(self).num_threads(),
            old(self).records().len() < usize::MAX,
        ensures
            final(self).wf(),
            r == old(self).wildcard_target(vaddr, size, thread),
            match old(self).lookup(vaddr, size, thread) {
                Lookup::Owned(id) => (r == if old(self).record(id).exposed {
                    Some(id)
                } else {
                    None
                }) && *final(self) == *old(self),
                Lookup::Materialize(m) => r == Some(AllocId(old(self).records().len() as usize))
                    && old(self).materialized(final(self), m),
                Lookup::Miss => (r is None) && *final(self) == *old(self),
            },
    {
        let vp = if size >= 0 || vaddr == 0 {
            vaddr
        } else {
            vaddr - 1
        };
        let p = match self.translate_addr(vp) {
            Some(p) => p,
            None => {
                return None;
            },
        };
        match self.find_owner(p) {
            Some(i) => {
                let id = self.int_to_ptr_map[i].1;
                proof {
                    assert(self.entry_ok(i as int));
                }
                if self.allocs[id.0].exposed {
                    Some(id)
                } else {
                    None
                }
            },
            None => {
                let m = match self.plan_materialization(vp, p, thread) {
                    Some(m) => m,
                    None => {
                        return None;
                    },
                };
                match self.free_position(m.phys, m.size) {
                    None => None,
                    Some(_) => {
                        let ghost prev = *self;
                        let id = self.push_record(
                            AllocRecord {
                                size: m.size,
                                align: m.align,
                                live: true,
                                exposed: false,
                                base: None,
                                origin: m.origin,
                            },
                        );
                        proof {
                            assert forall|i: int| 0 <= i < self.map().len() implies #[trigger] self.entry_size(i)
                                == prev.entry_size(i) by {
                                assert(prev.entry_ok(i));
                            }
                            assert(self.range_free(m.phys, m.size));
                        }
                        let ghost mid = *self;
                        self.insert_mapped(id, m.virt, m.phys, true);
                        proof {
                            assert(self.records() =~= prev.records().push(record_of(m)));
                            assert forall|q: u64| #[trigger] prev.owner(q) is Some implies self.owner(q) == prev.owner(q) by {
                                assert(mid.owner(q) == prev.owner(q));
                            }
                        }
                        Some(id)
                    },
                }
            },
        }
    }

    /// The handle a wildcard access finds: an exposed owner, or a synthesized allocation.
    pub open spec fn wildcard_target(&self, vaddr: u64, size: i64, thread: usize) -> Option<AllocId> {
        match self.lookup(vaddr, size, thread) {
            Lookup::Owned(id) => if self.record(id).exposed {
                Some(id)
            } else {
                None
            },
            Lookup::Materialize(_) => Some(AllocId(self.records().len() as usize)),
            Lookup::Miss => None,
        }
    }

    /// The offset of virtual `addr` from the base of `id`, on the target's width.
    pub open spec fn offset_of(&self, id: AllocId, addr: u64) -> Option<u64> {
        match self.translate(addr) {
            Some(a) => Some(truncate_to(wrap_sub(a, self.record(id).base.unwrap().1), self.cfg().target_usize_max)),
            None => None,
        }
    }

    fn offset_exec(&self, id: AllocId, addr: u64) -> (r: Option<u64>)
        requires
            self.wf(),
            self.valid_id(id),
            self.record(id).base is Some,
        ensures
            r == self.offset_of(id, addr),
    {
        let base = match self.allocs[id.0].base {
            Some(b) => b.1,
            None => 0,
        };
        let a = match self.translate_addr(addr) {
            Some(a) => a,
            None => {
                return None;
            },
        };
        let d = if a >= base {
            a - base
        } else {
            u64::MAX - (base - a) + 1
        };
        Some(truncate_exec(d, self.config.target_usize_max))
    }

    /// The allocation and offset an access of signed size `size` through
    /// `ptr` goes to: the pointer's own allocation, or for a wildcard pointer
    /// the one found at its address.
    pub fn ptr_get_alloc(&mut self, ptr: Pointer, size: i64, thread: usize) -> (r: Option<(AllocId, u64)>)
        requires
            old(self).wf(),
            thread < old(self).num_threads(),
            old(self).records().len() < usize::MAX,
            ptr.provenance matches Provenance::Concrete { alloc_id, .. } ==> old(self).valid_id(alloc_id)
                && old(self).record(alloc_id).base is Some,
            ptr.provenance is Wildcard ==> old(self).mode() != ProvenanceMode::Strict,
        ensures
            final(self).wf(),
            ptr.provenance matches Provenance::Concrete { alloc_id, .. } ==> *final(self) == *old(self) && r
                == match old(self).offset_of(alloc_id, ptr.addr) {
                Some(o) => Some((alloc_id, o)),
                None => None,
            },
            ptr.provenance is Wildcard ==> r == match old(self).wildcard_target(ptr.addr, size, thread) {
                Some(id) => match final(self).offset_of(id, ptr.addr) {
                    Some(o) => Some((id, o)),
                    None => None,
                },
                None => None,
            },
            ptr.provenance is Wildcard ==> (old(self).lookup(ptr.addr, size, thread) matches Lookup::Materialize(m)
                ==> old(self).materialized(final(self), m)),
            ptr.provenance is Wildcard ==> (!(old(self).lookup(ptr.addr, size, thread) is Materialize)
                ==> *final(self) == *old(self)),
    {
        let id = match ptr.provenance {
            Provenance::Concrete { alloc_id, .. } => alloc_id,
            Provenance::Wildcard => match self.alloc_id_from_addr(ptr.addr, size, thread) {
                Some(id) => id,
                None => {
                    return None;
                },
            },
        };
        proof {
            if ptr.provenance is Wildcard {
                if old(self).lookup(ptr.addr, size, thread) is Owned {
                    let vp = probe(ptr.addr, size);
                    old(self).lemma_owner_live(old(self).translate(vp).unwrap());
                } else {
                    assert(self.records()[id.0 as int] == record_of(old(self).lookup(ptr.addr, size, thread)->Materialize_0));
                }
            }
        }
        match self.offset_exec(id, ptr.addr) {
            Some(o) => Some((id, o)),
            None => None,
        }
    }

    /// A pointer to `offset` bytes into `alloc_id` with borrow tag `tag`,
    /// giving the allocation its address first if it has none.
    pub fn adjust_alloc_root_pointer(
        &mut self,
        alloc_id: AllocId,
        offset: u64,
        tag: u64,
        kind: MemoryKind,
        thread: usize,
        draws: Draws,
    ) -> (r: Result<Pointer, AllocError>)
        requires
            old(self).wf(),
            old(self).valid_id(alloc_id),
            old(self).record(alloc_id).base is Some || old(self).record(alloc_id).live,
            thread < old(self).num_threads(),
            draws.wf(),
        ensures
            final(self).wf(),
            (r is Ok) ==> (final(self).records()[alloc_id.0 as int].base matches Some(b) && r
                == Ok::<Pointer, AllocError>(
                Pointer {
                    provenance: Provenance::Concrete { alloc_id, tag },
                    addr: truncate_to(wrap_add(b.0, offset), old(self).cfg().target_usize_max),
                },
            )),
            (r is Ok) <==> (old(self).record(alloc_id).base is Some || old(self).assign_target(alloc_id, kind, thread, draws) is Some),
    {
        let ghost prev = *self;
        let base = match self.addr_from_alloc_id(alloc_id, kind, thread, draws) {
            Ok(b) => b,
            Err(e) => {
                return Err(e);
            },
        };
        let sum = if base <= u64::MAX - offset {
            base + offset
        } else {
            offset - (u64::MAX - base) - 1
        };
        Ok(
            Pointer {
                provenance: Provenance::Concrete { alloc_id, tag },
                addr: truncate_exec(sum, self.config.target_usize_max),
            },
        )
    }

    /// A copy of the record of `alloc_id`.
    pub fn alloc_record(&self, alloc_id: AllocId) -> (r: AllocRecord)
        requires
            self.valid_id(alloc_id),
        ensures
            r == self.record(alloc_id),
    {
        self.allocs[alloc_id.0]
    }

    /// How many handles have been handed out.
    pub fn num_allocs(&self) -> (r: usize)
        ensures
            r == self.records().len(),
    {
        self.allocs.len()
    }

    /// How many threads have been added.
    pub fn thread_count(&self) -> (r: usize)
        requires
            self.wf(),
        ensures
            r == self.num_threads(),
    {
        self.stack_cursors.len()
    }

    /// The current stack cursor of `thread`.
    pub fn next_stack_addr(&self, thread: usize) -> (r: u64)
        requires
            self.wf(),
            thread < self.num_threads(),
        ensures
            r == self.stack_cursors_view()[thread as int],
    {
        self.stack_cursors[thread]
    }

    /// A copy of the clock of `thread`.
    pub fn thread_clock(&self, thread: usize) -> (r: VClock)
        requires
            self.wf(),
            thread < self.num_threads(),
        ensures
            r@ == self.clocks_view()[thread as int],
    {
        self.clocks[thread].copy()
    }

    /// Replaces the clock of `thread`, as the race detector advances it.
    pub fn set_thread_clock(&mut self, thread: usize, clock: VClock)
        requires
            old(self).wf(),
            thread < old(self).num_threads(),
        ensures
            final(self).wf(),
            final(self).clocks_view() == old(self).clocks_view().update(thread as int, clock@),
            final(self).records() == old(self).records(),
            final(self).map() == old(self).map(),
            final(self).pool() == old(self).pool(),
            final(self).heap_cursor() == old(self).heap_cursor(),
            final(self).stack_cursors_view() == old(self).stack_cursors_view(),
            final(self).table() == old(self).table(),
            final(self).mode() == old(self).mode(),
    {
        let ghost prev = *self;
        self.clocks.set(thread, clock);
        proof {
            assert(self.clocks_view() =~= prev.clocks_view().update(thread as int, clock@));
            self.lemma_wf_frame(&prev);
        }
    }

    /// The number of ranges waiting in the reuse pool.
    pub fn reuse_pool_len(&self) -> (r: usize)
        ensures
            r == self.pool().entries_view().len(),
    {
        self.reuse.len()
    }

    pub fn provenance_mode(&self) -> (r: ProvenanceMode)
        ensures
            r == self.mode(),
    {
        self.provenance_mode
    }
}

/// An allocation that has an address and has been exposed is found by a
/// wildcard access of non-negative size at that address.
pub proof fn lemma_assigned_exposed_resolves(s: &GlobalStateInner, id: AllocId, size: i64, thread: usize)
    requires
        s.wf(),
        s.is_live(id),
        s.record(id).exposed,
        s.record(id).base matches Some(b) && s.translate(b.0) == Some(b.1),
        size >= 0,
    ensures
        s.wildcard_target(s.record(id).base.unwrap().0, size, thread) == Some(id),
{
    let b = s.record(id).base.unwrap();
    assert(s.records()[id.0 as int].live);
    assert(s.in_map(id.0 as int));
    let i = choose|i: int| 0 <= i < s.map().len() && #[trigger] s.map()[i].1.0 == id.0;
    assert(s.entry_ok(i));
    assert(s.covers(i, b.1 as int));
    s.lemma_owner(i, b.1);
}

/// Integer-to-pointer after pointer-to-integer: the wildcard pointer that a
/// cast of an exposed, live allocation's address yields finds that
/// allocation again on access.
pub proof fn lemma_cast_round_trip(s: &GlobalStateInner, id: AllocId, cast: IntCast, size: i64, thread: usize)
    requires
        s.wf(),
        s.is_live(id),
        s.record(id).exposed,
        s.record(id).base matches Some(b) && s.translate(b.0) == Some(b.1),
        cast.ptr == (Pointer { provenance: Provenance::Wildcard, addr: s.record(id).base.unwrap().0 }),
        size >= 0,
    ensures
        s.wildcard_target(cast.ptr.addr, size, thread) == Some(id),
{
    lemma_assigned_exposed_resolves(s, id, size, thread);
}

/// The ranges of two distinct live allocations with addresses never overlap.
pub proof fn lemma_live_ranges_disjoint(s: &GlobalStateInner, a: AllocId, b: AllocId)
    requires
        s.wf(),
        a != b,
        s.is_live(a),
        s.is_live(b),
        s.record(a).base is Some,
        s.record(b).base is Some,
    ensures
        ({
            let pa = s.record(a).base.unwrap().1 as int;
            let pb = s.record(b).base.unwrap().1 as int;
            pa + ext(s.record(a).size) <= pb || pb + ext(s.record(b).size) <= pa
        }),
{
    assert(s.records()[a.0 as int].live);
    assert(s.records()[b.0 as int].live);
    assert(s.in_map(a.0 as int));
    assert(s.in_map(b.0 as int));
    let i = choose|i: int| 0 <= i < s.map().len() && #[trigger] s.map()[i].1.0 == a.0;
    let j = choose|j: int| 0 <= j < s.map().len() && #[trigger] s.map()[j].1.0 == b.0;
    assert(s.entry_ok(i));
    assert(s.entry_ok(j));
    if i < j {
        assert(s.map()[i].0 + ext(s.entry_size(i)) <= s.map()[j].0 && s.map()[i] == s.map()[i]);
    } else {
        assert(i != j);
        assert(s.map()[j].0 + ext(s.entry_size(j)) <= s.map()[i].0 && s.map()[j] == s.map()[j]);
    }
}

/// A dead allocation is never what a wildcard access finds, whether its
/// address was reused or not.
pub proof fn lemma_dead_never_resolved(s: &GlobalStateInner, h: AllocId, vaddr: u64, size: i64, thread: usize)
    requires
        s.wf(),
        s.valid_id(h),
        !s.record(h).live,
    ensures
        s.wildcard_target(vaddr, size, thread) != Some(h),
{
    let vp = probe(vaddr, size);
    if let Some(p) = s.translate(vp) {
        if s.owner(p) is Some {
            s.lemma_owner_live(p);
        }
    }
}

/// After a request that reused a range freed with clock `c`, the requesting
/// thread's clock has seen everything `c` has.
pub proof fn lemma_reuse_acquires_clock(
    before: &GlobalStateInner,
    after: &GlobalStateInner,
    id: AllocId,
    kind: MemoryKind,
    thread: usize,
    draws: Draws,
)
    requires
        before.after_uncached(after, id, kind, thread, draws),
        thread < before.clocks_view().len(),
        before.reuse_pick(id, kind, thread, draws) matches Some(i)
            && before.pool().entries_view()[i].clock is Some,
    ensures
        ({
            let i = before.reuse_pick(id, kind, thread, draws).unwrap();
            let c = before.pool().entries_view()[i].clock.unwrap();
            dominates(after.clocks_view()[thread as int], c@)
        }),
{
    let i = before.reuse_pick(id, kind, thread, draws).unwrap();
    let c = before.pool().entries_view()[i].clock.unwrap();
    lemma_join_dominates(before.clocks_view()[thread as int], c@);
}

fn contains_id(v: &Vec<AllocId>, id: AllocId) -> (r: bool)
    ensures
        r == v@.contains(id),
{
    let mut i: usize = 0;
    while i < v.len()
        invariant
            i <= v@.len(),
            forall|j: int| 0 <= j < i ==> v@[j] != id,
        decreases v@.len() - i,
    {
        if v[i] == id {
            assert(v@[i as int] == id);
            return true;
        }
        i = i + 1;
    }
    false
}

} // verus!
