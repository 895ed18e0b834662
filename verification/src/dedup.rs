//! A grow-only membership index over string identities.
//!
//! The crawl keeps two of these: one for identities already handed to the
//! enrichment stage, and one for identities whose follow list has already
//! been scheduled for expansion. Insertion is idempotent and reports whether
//! the identity was newly recorded; nothing is ever removed during a run.

use vstd::prelude::*;

verus! {

/// A set of identities, stored in insertion order, each at most once.
pub struct DedupIndex {
    items: Vec<String>,
}

impl View for DedupIndex {
    type V = Seq<Seq<char>>;

    closed spec fn view(&self) -> Seq<Seq<char>> {
        self.items.deep_view()
    }
}

impl DedupIndex {
    /// Every recorded identity appears exactly once.
    pub open spec fn wf(self) -> bool {
        self@.no_duplicates()
    }

    pub fn new() -> (d: DedupIndex)
        ensures
            d@ == Seq::<Seq<char>>::empty(),
            d.wf(),
    {
        let d = DedupIndex { items: Vec::new() };
        proof {
            assert(d@ =~= Seq::<Seq<char>>::empty());
        }
        d
    }

    /// Exact membership test on the string value.
    pub fn contains(&self, id: &String) -> (r: bool)
        ensures
            r == self@.contains(id@),
    {
        let n = self.items.len();
        let mut i: usize = 0;
        while i < n
            invariant
                n == self.items@.len(),
                i <= n,
                forall|j: int| 0 <= j < i ==> self@[j] != id@,
            decreases n - i,
        {
            if self.items[i] == *id {
                proof {
                    assert(self@[i as int] == id@);
                }
                return true;
            }
            i += 1;
        }
        proof {
            assert forall|j: int| 0 <= j < self@.len() implies self@[j] != id@ by {}
        }
        false
    }

    /// Records the identity; reports true iff it was not already present.
    pub fn test_and_insert(&mut self, id: &String) -> (newly: bool)
        ensures
            newly == !old(self)@.contains(id@),
            newly ==> final(self)@ == old(self)@.push(id@),
            !newly ==> final(self)@ == old(self)@,
            old(self).wf() ==> final(self).wf(),
    {
        if self.contains(id) {
            false
        } else {
            self.items.push(id.clone());
            proof {
                assert(self@ =~= old(self)@.push(id@));
                if old(self).wf() {
                    assert forall|i: int, j: int|
                        0 <= i < self@.len() && 0 <= j < self@.len() && i != j
                        implies self@[i] != self@[j] by {
                        if i == old(self)@.len() {
                            assert(self@[j] == old(self)@[j]);
                        } else if j == old(self)@.len() {
                            assert(self@[i] == old(self)@[i]);
                        }
                    }
                }
            }
            true
        }
    }

    /// The number of distinct identities recorded.
    pub fn len(&self) -> (n: usize)
        ensures
            n == self@.len(),
    {
        self.items.len()
    }
}

} // verus!
