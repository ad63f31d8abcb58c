//! The search frontier: candidates ordered by tentative cost.

use vstd::prelude::*;

verus! {

/// The index of the first entry of least cost; 0 for an empty sequence.
pub open spec fn first_min(s: Seq<(u64, u64)>) -> int
    decreases s.len(),
{
    if s.len() <= 1 {
        0
    } else {
        let i = first_min(s.drop_last());
        if s.last().0 < s[i].0 {
            s.len() - 1
        } else {
            i
        }
    }
}

/// `first_min` points at an entry that no entry undercuts and that every
/// earlier entry exceeds.
pub proof fn lemma_first_min(s: Seq<(u64, u64)>)
    requires
        s.len() > 0,
    ensures
        0 <= first_min(s) < s.len(),
        forall|j: int| 0 <= j < s.len() ==> s[first_min(s)].0 <= (#[trigger] s[j]).0,
        forall|j: int| 0 <= j < first_min(s) ==> s[first_min(s)].0 < (#[trigger] s[j]).0,
    decreases s.len(),
{
    if s.len() > 1 {
        let init = s.drop_last();
        lemma_first_min(init);
        let i = first_min(init);
        assert forall|j: int| 0 <= j < s.len() implies s[first_min(s)].0 <= (#[trigger] s[j]).0 by {
            if j < init.len() {
                assert(init[j] == s[j]);
            }
        }
        assert forall|j: int| 0 <= j < first_min(s) implies s[first_min(s)].0 < (#[trigger] s[j]).0 by {
            assert(init[j] == s[j]);
        }
    }
}

/// Candidates `(cost, node)` that the search has still to look at. The
/// cheapest leaves first; among equally cheap ones, the one that was
/// pushed first.
pub struct Frontier {
    entries: Vec<(u64, u64)>,
}

impl View for Frontier {
    type V = Seq<(u64, u64)>;

    closed spec fn view(&self) -> Seq<(u64, u64)> {
        self.entries@
    }
}

impl Frontier {
    /// An empty frontier.
    pub fn new() -> (f: Frontier)
        ensures
            f@ == Seq::<(u64, u64)>::empty(),
    {
        Frontier { entries: Vec::new() }
    }

    /// Adds the candidate `(cost, node)` behind those already held.
    pub fn push(&mut self, cost: u64, node: u64)
        ensures
            final(self)@ == old(self)@.push((cost, node)),
    {
        self.entries.push((cost, node));
    }

    /// Takes out the first candidate of least cost; `None` exactly when the
    /// frontier is empty. The other candidates keep their order.
    pub fn pop_min(&mut self) -> (r: Option<(u64, u64)>)
        ensures
            old(self)@.len() == 0 ==> r.is_none() && final(self)@ == old(self)@,
            old(self)@.len() > 0 ==> r == Some(old(self)@[first_min(old(self)@)])
                && final(self)@ == old(self)@.remove(first_min(old(self)@)),
    {
        if self.entries.len() == 0 {
            return None;
        }
        let mut best: usize = 0;
        let mut k: usize = 1;
        proof {
            assert(first_min(self.entries@.take(1)) == 0);
        }
        while k < self.entries.len()
            invariant
                1 <= k <= self.entries.len(),
                best < k,
                best as int == first_min(self.entries@.take(k as int)),
            decreases self.entries.len() - k,
        {
            proof {
                let next = self.entries@.take(k as int + 1);
                assert(next.drop_last() =~= self.entries@.take(k as int));
                assert(next.last() == self.entries@[k as int]);
                assert(next[best as int] == self.entries@[best as int]);
            }
            if self.entries[k].0 < self.entries[best].0 {
                best = k;
            }
            k += 1;
        }
        proof {
            assert(self.entries@.take(self.entries.len() as int) =~= self.entries@);
        }
        let entry = self.entries.remove(best);
        Some(entry)
    }
}

} // verus!
