use vstd::prelude::*;

use vstd::multiset::Multiset;

use crate::diff::Diff;
use crate::diff::DiffModel;

verus! {

/// A min-priority queue of diffs keyed by their position.
///
/// The scanner emits a whole block match as one batch of diffs; the queue
/// merges such batches with previously buffered ones so diffs can be drained
/// in ascending position order. Its contents are modelled as a multiset of
/// `DiffModel` values; `pop` removes an entry of minimal position.
pub struct DiffHeap {
    entries: Vec<Diff>,
}

impl View for DiffHeap {
    type V = Multiset<DiffModel>;

    closed spec fn view(&self) -> Multiset<DiffModel> {
        self.entries@.map_values(|d: Diff| d@).to_multiset()
    }
}

impl DiffHeap {
    /// Number of buffered diffs.
    pub closed spec fn spec_len(&self) -> nat {
        self.entries@.len()
    }

    /// Creates an empty queue.
    pub fn new() -> (r: DiffHeap)
        ensures
            r@ == Multiset::<DiffModel>::empty(),
            r.spec_len() == 0,
    {
        let r = DiffHeap { entries: Vec::new() };
        proof {
            broadcast use vstd::seq_lib::group_to_multiset_ensures;

            assert(r.entries@.map_values(|d: Diff| d@) =~= Seq::<DiffModel>::empty());
            assert(r@ =~= Multiset::<DiffModel>::empty());
        }
        r
    }

    /// Inserts one diff.
    pub fn push(&mut self, diff: Diff)
        ensures
            final(self)@ == old(self)@.insert(diff@),
            final(self).spec_len() == old(self).spec_len() + 1,
    {
        proof {
            broadcast use vstd::seq_lib::group_to_multiset_ensures;

            let f = |d: Diff| d@;
            old(self).entries@.lemma_push_map_commute(f, diff);
            assert(old(self).entries@.push(diff).map_values(f).to_multiset() =~= old(
                self,
            ).entries@.map_values(f).to_multiset().insert(diff@));
        }
        self.entries.push(diff);
    }

    /// Absorbs every diff of another queue.
    pub fn merge_with(&mut self, other: DiffHeap)
        ensures
            final(self)@ == old(self)@.add(other@),
    {
        let mut other = other;
        let ghost total = self@.add(other@);
        loop
            invariant
                self@.add(other@) == total,
            ensures
                self@ == total,
            decreases other.spec_len(),
        {
            match other.pop() {
                None => {
                    proof {
                        assert(self@ =~= self@.add(other@));
                    }
                    break ;
                },
                Some(d) => {
                    let ghost before = self@;
                    let ghost od = other@;
                    self.push(d);
                    proof {
                        assert(self@.add(od) =~= before.add(od.insert(d@)));
                    }
                },
            }
        }
    }

    /// Removes and returns a diff of minimal position, or `None` when empty.
    pub fn pop(&mut self) -> (r: Option<Diff>)
        ensures
            match r {
                None => old(self)@ == Multiset::<DiffModel>::empty() && *final(self) == *old(
                    self,
                ),
                Some(d) => {
                    &&& old(self)@ == final(self)@.insert(d@)
                    &&& final(self).spec_len() + 1 == old(self).spec_len()
                    &&& forall|e: DiffModel| final(self)@.contains(e) ==> d@.pos <= e.pos
                    &&& old(self)@.contains(d@)
                },
            },
    {
        proof {
            broadcast use vstd::seq_lib::group_to_multiset_ensures;

        }
        if self.entries.len() == 0 {
            proof {
                assert(self.entries@.map_values(|d: Diff| d@) =~= Seq::<DiffModel>::empty());
                assert(self@ =~= Multiset::<DiffModel>::empty());
            }
            return None;
        }
        let ghost f = |d: Diff| d@;
        let mut best: usize = 0;
        let mut i: usize = 1;
        while i < self.entries.len()
            invariant
                best < i <= self.entries@.len(),
                forall|j: int|
                    0 <= j < i ==> self.entries@[best as int].pos <= #[trigger] self.entries@[j].pos,
            decreases self.entries@.len() - i,
        {
            if self.entries[i].pos < self.entries[best].pos {
                best = i;
            }
            i = i + 1;
        }
        let d = self.entries.remove(best);
        proof {
            broadcast use vstd::seq_lib::group_to_multiset_ensures;

            let olds = old(self).entries@;
            assert(olds.map_values(f).remove(best as int) =~= self.entries@.map_values(f));
            assert(olds.map_values(f).to_multiset() =~= self.entries@.map_values(
                f,
            ).to_multiset().insert(d@)) by {
                assert(olds.map_values(f).remove(best as int).to_multiset() =~= olds.map_values(
                    f,
                ).to_multiset().remove(olds.map_values(f)[best as int]));
                assert(olds.map_values(f)[best as int] == d@);
                lemma_multiset_remove_insert(olds.map_values(f).to_multiset(), d@);
            }
            assert forall|e: DiffModel| self@.contains(e) implies d@.pos <= e.pos by {
                let s = self.entries@.map_values(f);
                assert(s.to_multiset().contains(e));
                let k = choose|k: int| 0 <= k < s.len() && s[k] == e;
                assert(self.entries@[k] == old(self).entries@[if k < best as int {
                    k
                } else {
                    k + 1
                }]);
            }
            assert(old(self)@.contains(d@)) by {
                let s = olds.map_values(f);
                assert(s[best as int] == d@);
                assert(s.contains(d@));
            }
        }
        Some(d)
    }
}

/// Removing then re-inserting a contained element leaves a multiset unchanged.
proof fn lemma_multiset_remove_insert(m: Multiset<DiffModel>, e: DiffModel)
    requires
        m.contains(e),
    ensures
        m.remove(e).insert(e) == m,
{
    assert(m.remove(e).insert(e) =~= m);
}

} // verus!
