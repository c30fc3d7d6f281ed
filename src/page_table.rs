use vstd::prelude::*;

verus! {

/// What a physical page holds before anything was allocated in it.
#[derive(Clone, Copy, Debug, PartialEq, Eq, Structural)]
pub enum PageState {
    /// Nothing is synthesized on a miss.
    Untyped,
    /// The page holds elements of `type_size` bytes, materialized one by one
    /// when first touched.
    Typed { type_size: u64 },
}

/// Virtual to physical translation, one entry per mapped virtual page.
pub struct PageTable {
    page_size: u64,
    /// (virtual page number, physical base address of the page)
    entries: Vec<(u64, u64)>,
}

impl PageTable {
    pub closed spec fn size_of_page(&self) -> u64 {
        self.page_size
    }

    pub closed spec fn entries_view(&self) -> Seq<(u64, u64)> {
        self.entries@
    }

    pub closed spec fn wf(&self) -> bool {
        &&& self.page_size > 0
        &&& forall|i: int|
            0 <= i < self.entries@.len() ==> #[trigger] self.entries@[i].1 + self.page_size
                <= u64::MAX
        &&& forall|i: int, j: int|
            0 <= i < self.entries@.len() && 0 <= j < self.entries@.len() && i != j
                ==> #[trigger] self.entries@[i].0 != #[trigger] self.entries@[j].0
    }

    /// Whether virtual page `vpn` is mapped.
    pub closed spec fn is_mapped(&self, vpn: u64) -> bool {
        exists|i: int| 0 <= i < self.entries@.len() && #[trigger] self.entries@[i].0 == vpn
    }

    /// The physical base of the mapped virtual page `vpn`.
    pub closed spec fn frame_of(&self, vpn: u64) -> u64 {
        self.entries@[choose|i: int| 0 <= i < self.entries@.len() && #[trigger] self.entries@[i].0 == vpn].1
    }

    /// The physical address that `vaddr` translates to, if its page is mapped.
    pub open spec fn walk(&self, vaddr: u64) -> Option<u64> {
        let vpn = (vaddr / self.size_of_page()) as u64;
        if self.is_mapped(vpn) {
            Some((self.frame_of(vpn) + vaddr % self.size_of_page()) as u64)
        } else {
            None
        }
    }

    proof fn lemma_frame(&self, i: int)
        requires
            self.wf(),
            0 <= i < self.entries@.len(),
        ensures
            self.is_mapped(self.entries@[i].0),
            self.frame_of(self.entries@[i].0) == self.entries@[i].1,
    {
        let vpn = self.entries@[i].0;
        assert(self.is_mapped(vpn));
        let j = choose|j: int| 0 <= j < self.entries@.len() && #[trigger] self.entries@[j].0 == vpn;
        assert(self.entries@[j].0 == self.entries@[i].0);
    }

    /// An empty table with pages of `page_size` bytes.
    pub fn new(page_size: u64) -> (r: PageTable)
        requires
            page_size > 0,
        ensures
            r.wf(),
            r.size_of_page() == page_size,
            forall|v: u64| r.walk(v) is None,
    {
        PageTable { page_size, entries: Vec::new() }
    }

    pub fn page_size(&self) -> (r: u64)
        requires
            self.wf(),
        ensures
            r == self.size_of_page(),
            r > 0,
    {
        self.page_size
    }

    /// Maps virtual page `vpn` to the physical page starting at `frame`.
    /// Refused (and nothing changes) when `vpn` is already mapped or the
    /// physical page would end past the address space.
    pub fn map_page(&mut self, vpn: u64, frame: u64) -> (r: bool)
        requires
            old(self).wf(),
        ensures
            final(self).wf(),
            final(self).size_of_page() == old(self).size_of_page(),
            r == (!old(self).is_mapped(vpn) && frame + old(self).size_of_page() <= u64::MAX),
            !r ==> *final(self) == *old(self),
            r ==> forall|v: u64|
                #[trigger] final(self).walk(v) == if v / old(self).size_of_page() == vpn {
                    Some((frame + v % old(self).size_of_page()) as u64)
                } else {
                    old(self).walk(v)
                },
    {
        if frame > u64::MAX - self.page_size {
            return false;
        }
        let mut i: usize = 0;
        while i < self.entries.len()
            invariant
                self.wf(),
                *self == *old(self),
                frame + self.page_size <= u64::MAX,
                i <= self.entries@.len(),
                forall|j: int| 0 <= j < i ==> #[trigger] self.entries@[j].0 != vpn,
            decreases self.entries@.len() - i,
        {
            if self.entries[i].0 == vpn {
                assert(self.is_mapped(vpn));
                return false;
            }
            i = i + 1;
        }
        let ghost prev = *self;
        self.entries.push((vpn, frame));
        let ghost n = prev.entries@.len();
        assert(self.entries@[n as int] == (vpn, frame));
        assert forall|v: u64|
            #[trigger] self.walk(v) == if v / prev.page_size == vpn {
                Some((frame + v % prev.page_size) as u64)
            } else {
                prev.walk(v)
            } by {
            let w = (v / self.page_size) as u64;
            if w == vpn {
                self.lemma_frame(n as int);
            } else if prev.is_mapped(w) {
                let j = choose|j: int| 0 <= j < prev.entries@.len() && #[trigger] prev.entries@[j].0 == w;
                prev.lemma_frame(j);
                assert(self.entries@[j] == prev.entries@[j]);
                self.lemma_frame(j);
            } else {
                if self.is_mapped(w) {
                    let j = choose|j: int| 0 <= j < self.entries@.len() && #[trigger] self.entries@[j].0 == w;
                    assert(j != n);
                    assert(prev.entries@[j].0 == w);
                }
            }
        }
        true
    }

    /// Translates `vaddr`.
    pub fn page_walk(&self, vaddr: u64) -> (r: Option<u64>)
        requires
            self.wf(),
        ensures
            r == self.walk(vaddr),
    {
        let vpn = vaddr / self.page_size;
        let mut i: usize = 0;
        while i < self.entries.len()
            invariant
                self.wf(),
                i <= self.entries@.len(),
                vpn == vaddr / self.page_size,
                forall|j: int| 0 <= j < i ==> #[trigger] self.entries@[j].0 != vpn,
            decreases self.entries@.len() - i,
        {
            if self.entries[i].0 == vpn {
                proof {
                    self.lemma_frame(i as int);
                }
                return Some(self.entries[i].1 + vaddr % self.page_size);
            }
            i = i + 1;
        }
        None
    }
}

} // verus!
