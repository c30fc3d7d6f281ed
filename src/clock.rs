use vstd::prelude::*;

verus! {

/// Timestamp of thread `t` in the clock `c`; threads past the end are at zero.
pub open spec fn time_at(c: Seq<u64>, t: int) -> u64 {
    if 0 <= t < c.len() {
        c[t]
    } else {
        0
    }
}

/// `a` has seen everything that `b` has seen.
pub open spec fn dominates(a: Seq<u64>, b: Seq<u64>) -> bool {
    forall|t: int| 0 <= t < b.len() ==> b[t] <= #[trigger] time_at(a, t)
}

pub open spec fn max_nat(a: nat, b: nat) -> nat {
    if a >= b {
        a
    } else {
        b
    }
}

/// The pointwise maximum of two clocks.
pub open spec fn join_spec(a: Seq<u64>, b: Seq<u64>) -> Seq<u64> {
    Seq::new(
        max_nat(a.len(), b.len()),
        |t: int|
            if time_at(a, t) >= time_at(b, t) {
                time_at(a, t)
            } else {
                time_at(b, t)
            },
    )
}

/// A vector clock: one logical timestamp per thread.
pub struct VClock {
    times: Vec<u64>,
}

impl View for VClock {
    type V = Seq<u64>;

    closed spec fn view(&self) -> Seq<u64> {
        self.times@
    }
}

impl VClock {
    /// The clock at which nothing has happened yet.
    pub fn new() -> (r: VClock)
        ensures
            r@ == Seq::<u64>::empty(),
    {
        VClock { times: Vec::new() }
    }

    pub fn from_times(times: Vec<u64>) -> (r: VClock)
        ensures
            r@ == times@,
    {
        VClock { times }
    }

    pub fn len(&self) -> (r: usize)
        ensures
            r == self@.len(),
    {
        self.times.len()
    }

    /// The timestamp of thread `t`.
    pub fn get(&self, t: usize) -> (r: u64)
        ensures
            r == time_at(self@, t as int),
    {
        if t < self.times.len() {
            self.times[t]
        } else {
            0
        }
    }

    pub fn copy(&self) -> (r: VClock)
        ensures
            r@ == self@,
    {
        let mut times: Vec<u64> = Vec::new();
        let mut i: usize = 0;
        while i < self.times.len()
            invariant
                i <= self.times@.len(),
                times@ == self.times@.subrange(0, i as int),
            decreases self.times@.len() - i,
        {
            times.push(self.times[i]);
            i = i + 1;
            assert(times@ =~= self.times@.subrange(0, i as int));
        }
        assert(times@ =~= self.times@);
        VClock { times }
    }

    /// The pointwise maximum of `self` and `other`.
    pub fn joined(&self, other: &VClock) -> (r: VClock)
        ensures
            r@ == join_spec(self@, other@),
    {
        let n = if self.times.len() >= other.times.len() {
            self.times.len()
        } else {
            other.times.len()
        };
        let mut times: Vec<u64> = Vec::new();
        let mut i: usize = 0;
        while i < n
            invariant
                i <= n,
                n == max_nat(self@.len(), other@.len()),
                times@.len() == i,
                forall|t: int| 0 <= t < i ==> times@[t] == join_spec(self@, other@)[t],
            decreases n - i,
        {
            let a = self.get(i);
            let b = other.get(i);
            times.push(if a >= b { a } else { b });
            i = i + 1;
        }
        let r = VClock { times };
        assert(r@ =~= join_spec(self@, other@));
        r
    }

    /// Whether `self` has seen everything that `other` has seen.
    pub fn dominates(&self, other: &VClock) -> (r: bool)
        ensures
            r == dominates(self@, other@),
    {
        let mut i: usize = 0;
        while i < other.times.len()
            invariant
                i <= other@.len(),
                forall|t: int| 0 <= t < i ==> other@[t] <= #[trigger] time_at(self@, t),
            decreases other@.len() - i,
        {
            if other.times[i] > self.get(i) {
                return false;
            }
            i = i + 1;
        }
        true
    }
}

/// A joined clock has seen everything that either of its parts has seen.
pub proof fn lemma_join_dominates(a: Seq<u64>, b: Seq<u64>)
    ensures
        dominates(join_spec(a, b), a),
        dominates(join_spec(a, b), b),
{
    let j = join_spec(a, b);
    assert forall|t: int| 0 <= t < a.len() implies a[t] <= #[trigger] time_at(j, t) by {
        assert(time_at(a, t) == a[t]);
    }
    assert forall|t: int| 0 <= t < b.len() implies b[t] <= #[trigger] time_at(j, t) by {
        assert(time_at(b, t) == b[t]);
    }
}

} // verus!
