//! The processed-marker ledger: which nodes and scene roots have already been
//! handled, so that a later pass leaves them alone. Marks are only ever added.
use vstd::prelude::*;
use std::collections::HashSet;

verus! {

broadcast use vstd::std_specs::hash::group_hash_axioms;

/// The set of marked node numbers.
pub struct Ledger {
    marked: HashSet<usize>,
}

/// `l` with every node of `ids` marked as well.
pub open spec fn with_marks(l: Set<usize>, ids: Seq<usize>) -> Set<usize> {
    l.union(Set::new(|k: usize| ids.contains(k)))
}

impl View for Ledger {
    type V = Set<usize>;

    closed spec fn view(&self) -> Set<usize> {
        self.marked@
    }
}

impl Ledger {
    /// A ledger with no marks.
    pub fn new() -> (r: Ledger)
        ensures
            r@ == Set::<usize>::empty(),
    {
        Ledger { marked: HashSet::new() }
    }

    /// Whether node `id` is marked.
    pub fn is_marked(&self, id: usize) -> (r: bool)
        ensures
            r == self@.contains(id),
    {
        self.marked.contains(&id)
    }

    /// Marks node `id`; marking it again changes nothing.
    pub fn mark(&mut self, id: usize)
        ensures
            final(self)@ == old(self)@.insert(id),
    {
        self.marked.insert(id);
    }

    /// Marks every node of `ids`.
    pub fn mark_all(&mut self, ids: &Vec<usize>)
        ensures
            final(self)@ == with_marks(old(self)@, ids@),
    {
        let ghost start = self@;
        let mut i: usize = 0;
        while i < ids.len()
            invariant
                i <= ids.len(),
                self@ == with_marks(start, ids@.subrange(0, i as int)),
            decreases ids.len() - i,
        {
            let ghost before = self@;
            self.mark(ids[i]);
            i = i + 1;
            assert forall|k: usize| #[trigger] ids@.subrange(0, i as int).contains(k) <==> ids@.subrange(
                0,
                i - 1,
            ).contains(k) || k == ids@[i - 1] by {
                if ids@.subrange(0, i as int).contains(k) {
                    let j = choose|j: int|
                        0 <= j < i && #[trigger] ids@.subrange(0, i as int)[j] == k;
                    if j < i - 1 {
                        assert(ids@.subrange(0, i - 1)[j] == k);
                    }
                }
                if ids@.subrange(0, i - 1).contains(k) {
                    let j = choose|j: int| 0 <= j < i - 1 && #[trigger] ids@.subrange(0, i - 1)[j] == k;
                    assert(ids@.subrange(0, i as int)[j] == k);
                }
                if k == ids@[i - 1] {
                    assert(ids@.subrange(0, i as int)[i - 1] == k);
                }
            }
            assert(self@ =~= with_marks(start, ids@.subrange(0, i as int)));
        }
        assert(ids@.subrange(0, ids.len() as int) =~= ids@);
    }
}

} // verus!
