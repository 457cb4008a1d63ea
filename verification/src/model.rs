//! A flat list of text entries with two independent orderings, importance
//! and easiness: the single-user entry model that a rendering collaborator
//! drives directly, without the full store around it.

use vstd::prelude::*;

use crate::OrderedTasks;
use crate::TaskId;
use crate::simple_athens_space::ranks_exactly;
use crate::simple_athens_space::spec_combine;
use crate::spec_reorder;

verus! {

/// `v` orders a pool of `n` entries: it lists `n` indices, all below `n`,
/// each exactly once.
pub open spec fn orders_exactly(v: Seq<usize>, n: int) -> bool {
    &&& v.len() == n
    &&& forall|k: int| 0 <= k < v.len() ==> (#[trigger] v[k]) < n
    &&& v.no_duplicates()
}

/// Entry indices read as task identifiers, so the combined-score order of
/// the store applies to the entry model too.
pub open spec fn to_ids(v: Seq<usize>) -> Seq<TaskId> {
    v.map_values(|x: usize| TaskId(x))
}

/// One entry as handed to the renderer: its stable index, its position in
/// the requested ordering, and its text.
pub struct Entry {
    pub id: usize,
    pub order: usize,
    pub text: String,
}

/// The entry list with its two orderings. Both orderings always cover
/// exactly the current entries.
pub struct Model {
    entries: Vec<String>,
    importance: Vec<usize>,
    easiness: Vec<usize>,
}

impl Default for Model {
    /// An empty model.
    fn default() -> (m: Self)
        ensures
            m.spec_entries() == Seq::<String>::empty(),
            m.spec_importance() == Seq::<usize>::empty(),
            m.spec_easiness() == Seq::<usize>::empty(),
    {
        Model { entries: Vec::new(), importance: Vec::new(), easiness: Vec::new() }
    }
}

impl Model {
    /// The entry texts, by stable index.
    pub closed spec fn spec_entries(&self) -> Seq<String> {
        self.entries@
    }

    /// The importance ordering: entry indices, most important first.
    pub closed spec fn spec_importance(&self) -> Seq<usize> {
        self.importance@
    }

    /// The easiness ordering: entry indices, easiest first.
    pub closed spec fn spec_easiness(&self) -> Seq<usize> {
        self.easiness@
    }

    /// Both orderings list exactly the current entry indices.
    #[verifier::type_invariant]
    spec fn wf(self) -> bool {
        &&& orders_exactly(self.importance@, self.entries@.len() as int)
        &&& orders_exactly(self.easiness@, self.entries@.len() as int)
    }

    /// The combined order of the two orderings by summed rank.
    pub open spec fn combined_order(&self) -> Seq<TaskId> {
        spec_combine(to_ids(self.spec_importance()), to_ids(self.spec_easiness()))
    }

    /// Appends an empty entry and places it first in both orderings.
    pub fn add_entry(&mut self)
        ensures
            final(self).spec_entries().len() == old(self).spec_entries().len() + 1,
            forall|k: int|
                0 <= k < old(self).spec_entries().len() ==> final(self).spec_entries()[k]
                    == #[trigger] old(self).spec_entries()[k],
            final(self).spec_entries().last()@ == Seq::<char>::empty(),
            final(self).spec_importance() == seq![old(self).spec_entries().len() as usize] + old(
                self,
            ).spec_importance(),
            final(self).spec_easiness() == seq![old(self).spec_entries().len() as usize] + old(
                self,
            ).spec_easiness(),
    {
        proof {
            use_type_invariant(&*self);
        }
        let mut taken = Model { entries: Vec::new(), importance: Vec::new(), easiness: Vec::new() };
        core::mem::swap(self, &mut taken);
        let Model { mut entries, mut importance, mut easiness } = taken;
        let i = entries.len();
        entries.push(String::new());
        importance.insert(0, i);
        easiness.insert(0, i);
        proof {
            lemma_prepend_orders(old(self).spec_importance(), i as int);
            lemma_prepend_orders(old(self).spec_easiness(), i as int);
            assert(importance@ =~= seq![i] + old(self).spec_importance());
            assert(easiness@ =~= seq![i] + old(self).spec_easiness());
        }
        *self = Model { entries, importance, easiness };
    }

    /// Moves the importance entry at `from` so that it lands at `to`; with
    /// both indices equal nothing moves and neither index is inspected.
    pub fn move_importance(&mut self, from: usize, to: usize)
        requires
            from == to || (from < old(self).spec_importance().len() && to < old(
                self,
            ).spec_importance().len()),
        ensures
            final(self).spec_entries() == old(self).spec_entries(),
            final(self).spec_easiness() == old(self).spec_easiness(),
            final(self).spec_importance() == (if from == to {
                old(self).spec_importance()
            } else {
                spec_reorder(old(self).spec_importance(), from as int, to as int)
            }),
    {
        proof {
            use_type_invariant(&*self);
        }
        if from == to {
            return ;
        }
        let mut taken = Model { entries: Vec::new(), importance: Vec::new(), easiness: Vec::new() };
        core::mem::swap(self, &mut taken);
        let Model { entries, mut importance, easiness } = taken;
        let moved = importance.remove(from);
        importance.insert(to, moved);
        proof {
            lemma_reorder_orders(
                old(self).spec_importance(),
                old(self).spec_entries().len() as int,
                from as int,
                to as int,
            );
        }
        *self = Model { entries, importance, easiness };
    }

    /// Moves the easiness entry at `from` so that it lands at `to`; with
    /// both indices equal nothing moves and neither index is inspected.
    pub fn move_easiness(&mut self, from: usize, to: usize)
        requires
            from == to || (from < old(self).spec_easiness().len() && to < old(
                self,
            ).spec_easiness().len()),
        ensures
            final(self).spec_entries() == old(self).spec_entries(),
            final(self).spec_importance() == old(self).spec_importance(),
            final(self).spec_easiness() == (if from == to {
                old(self).spec_easiness()
            } else {
                spec_reorder(old(self).spec_easiness(), from as int, to as int)
            }),
    {
        proof {
            use_type_invariant(&*self);
        }
        if from == to {
            return ;
        }
        let mut taken = Model { entries: Vec::new(), importance: Vec::new(), easiness: Vec::new() };
        core::mem::swap(self, &mut taken);
        let Model { entries, importance, mut easiness } = taken;
        let moved = easiness.remove(from);
        easiness.insert(to, moved);
        proof {
            lemma_reorder_orders(
                old(self).spec_easiness(),
                old(self).spec_entries().len() as int,
                from as int,
                to as int,
            );
        }
        *self = Model { entries, importance, easiness };
    }

    /// Replaces the text of the entry at `id`, which must exist.
    pub fn set_text(&mut self, id: usize, text: String)
        requires
            id < old(self).spec_entries().len(),
        ensures
            final(self).spec_entries() == old(self).spec_entries().update(id as int, text),
            final(self).spec_importance() == old(self).spec_importance(),
            final(self).spec_easiness() == old(self).spec_easiness(),
    {
        proof {
            use_type_invariant(&*self);
        }
        let mut taken = Model { entries: Vec::new(), importance: Vec::new(), easiness: Vec::new() };
        core::mem::swap(self, &mut taken);
        let Model { mut entries, importance, easiness } = taken;
        let ghost entries0 = entries@;
        let _old_text = entries.remove(id);
        entries.insert(id, text);
        proof {
            entries0.remove_ensures(id as int);
            assert(entries@ =~= entries0.update(id as int, text));
        }
        *self = Model { entries, importance, easiness };
    }

    /// The entries in importance order, most important first.
    pub fn iter_importance(&self) -> (r: Vec<Entry>)
        ensures
            r@.len() == self.spec_importance().len(),
            forall|k: int|
                0 <= k < r@.len() ==> {
                    &&& (#[trigger] r@[k]).id == self.spec_importance()[k]
                    &&& r@[k].order == k
                    &&& r@[k].text == self.spec_entries()[self.spec_importance()[k] as int]
                },
    {
        proof {
            use_type_invariant(self);
        }
        let n = self.importance.len();
        let mut r: Vec<Entry> = Vec::new();
        let mut k: usize = 0;
        while k < n
            invariant
                k <= n,
                n == self.importance@.len(),
                self.wf(),
                r@.len() == k,
                forall|q: int|
                    0 <= q < k ==> {
                        &&& (#[trigger] r@[q]).id == self.importance@[q]
                        &&& r@[q].order == q
                        &&& r@[q].text == self.entries@[self.importance@[q] as int]
                    },
            decreases n - k,
        {
            let id = self.importance[k];
            r.push(Entry { id, order: k, text: clone_string(&self.entries[id]) });
            k += 1;
        }
        r
    }

    /// The entries in easiness order, easiest first.
    pub fn iter_easiness(&self) -> (r: Vec<Entry>)
        ensures
            r@.len() == self.spec_easiness().len(),
            forall|k: int|
                0 <= k < r@.len() ==> {
                    &&& (#[trigger] r@[k]).id == self.spec_easiness()[k]
                    &&& r@[k].order == k
                    &&& r@[k].text == self.spec_entries()[self.spec_easiness()[k] as int]
                },
    {
        proof {
            use_type_invariant(self);
        }
        let n = self.easiness.len();
        let mut r: Vec<Entry> = Vec::new();
        let mut k: usize = 0;
        while k < n
            invariant
                k <= n,
                n == self.easiness@.len(),
                self.wf(),
                r@.len() == k,
                forall|q: int|
                    0 <= q < k ==> {
                        &&& (#[trigger] r@[q]).id == self.easiness@[q]
                        &&& r@[q].order == q
                        &&& r@[q].text == self.entries@[self.easiness@[q] as int]
                    },
            decreases n - k,
        {
            let id = self.easiness[k];
            r.push(Entry { id, order: k, text: clone_string(&self.entries[id]) });
            k += 1;
        }
        r
    }

    /// The entries ordered by the sum of their two ranks, best sums first:
    /// the combined-score order over this model's two orderings.
    pub fn iter_important_and_easy(&self) -> (r: Vec<Entry>)
        ensures
            r@.len() == self.combined_order().len(),
            forall|k: int|
                0 <= k < r@.len() ==> {
                    &&& (#[trigger] r@[k]).id == self.combined_order()[k].0
                    &&& r@[k].order == k
                    &&& r@[k].text == self.spec_entries()[self.combined_order()[k].0 as int]
                },
    {
        proof {
            use_type_invariant(self);
        }
        let n = self.entries.len();
        let imp = self.order_as_ballot(true);
        let eas = self.order_as_ballot(false);
        proof {
            lemma_order_ids_rank(self.importance@, n as int);
            lemma_order_ids_rank(self.easiness@, n as int);
            crate::simple_athens_space::lemma_ranks_exactly_to_set(imp@, n as int);
            crate::simple_athens_space::lemma_ranks_exactly_to_set(eas@, n as int);
        }
        let combined = match crate::simple_athens_space::combine_important_and_easy(&imp, &eas) {
            Ok(o) => o,
            Err(_) => {
                proof {
                    assert(false);
                }
                imp
            },
        };
        proof {
            crate::simple_athens_space::lemma_combine_members(
                to_ids(self.importance@),
                to_ids(self.easiness@),
            );
            assert forall|q: int|
                0 <= q < combined@.len() implies (#[trigger] combined@[q]).0
                < self.entries@.len() by {
                assert(to_ids(self.importance@).contains(combined@[q]));
                let idx = choose|idx: int|
                    0 <= idx < to_ids(self.importance@).len() && to_ids(self.importance@)[idx]
                        == combined@[q];
                assert(to_ids(self.importance@)[idx] == TaskId(self.importance@[idx]));
            }
        }
        let m = combined.len();
        let mut r: Vec<Entry> = Vec::new();
        let mut k: usize = 0;
        while k < m
            invariant
                k <= m,
                m == combined@.len(),
                combined@ == self.combined_order(),
                self.wf(),
                forall|q: int|
                    0 <= q < combined@.len() ==> (#[trigger] combined@[q]).0
                        < self.entries@.len(),
                r@.len() == k,
                forall|q: int|
                    0 <= q < k ==> {
                        &&& (#[trigger] r@[q]).id == combined@[q].0
                        &&& r@[q].order == q
                        &&& r@[q].text == self.entries@[combined@[q].0 as int]
                    },
            decreases m - k,
        {
            let id = combined.get(k).0;
            r.push(Entry { id, order: k, text: clone_string(&self.entries[id]) });
            k += 1;
        }
        r
    }

    /// One of the model's orderings read as a ballot of task identifiers.
    fn order_as_ballot(&self, importance: bool) -> (o: OrderedTasks)
        ensures
            o@ == to_ids(
                if importance {
                    self.spec_importance()
                } else {
                    self.spec_easiness()
                },
            ),
    {
        proof {
            use_type_invariant(self);
        }
        let v = if importance {
            &self.importance
        } else {
            &self.easiness
        };
        let n = v.len();
        let mut ids: Vec<TaskId> = Vec::new();
        let mut k: usize = 0;
        while k < n
            invariant
                k <= n,
                n == v@.len(),
                v@.no_duplicates(),
                ids@.len() == k,
                forall|q: int| 0 <= q < k ==> #[trigger] ids@[q] == TaskId(v@[q]),
            decreases n - k,
        {
            ids.push(TaskId(v[k]));
            k += 1;
        }
        proof {
            assert forall|p: int, q: int|
                0 <= p < ids@.len() && 0 <= q < ids@.len() && p != q implies ids@[p]
                != ids@[q] by {
                assert(ids@[p] == TaskId(v@[p]) && ids@[q] == TaskId(v@[q]));
            }
            assert(ids@ =~= to_ids(v@));
        }
        OrderedTasks::from_distinct(ids)
    }
}

/// A copy of one entry text.
fn clone_string(s: &String) -> (r: String)
    ensures
        r == *s,
{
    s.clone()
}

/// Prepending the fresh index `n` to a complete ordering over `n` entries
/// yields a complete ordering over `n + 1` entries.
proof fn lemma_prepend_orders(v: Seq<usize>, n: int)
    requires
        orders_exactly(v, n),
        0 <= n <= usize::MAX,
    ensures
        orders_exactly(seq![n as usize] + v, n + 1),
{
    let r = seq![n as usize] + v;
    assert forall|k: int| 0 <= k < r.len() implies (#[trigger] r[k]) < n + 1 by {
        if k > 0 {
            assert(r[k] == v[k - 1]);
        }
    }
    assert forall|p: int, q: int|
        0 <= p < r.len() && 0 <= q < r.len() && p != q implies r[p] != r[q] by {
        if p == 0 {
            assert(r[q] == v[q - 1] && v[q - 1] < n);
        } else if q == 0 {
            assert(r[p] == v[p - 1] && v[p - 1] < n);
        } else {
            assert(r[p] == v[p - 1] && r[q] == v[q - 1]);
        }
    }
}

/// Reordering a complete ordering keeps it complete.
proof fn lemma_reorder_orders(v: Seq<usize>, n: int, from: int, to: int)
    requires
        orders_exactly(v, n),
        0 <= from < v.len(),
        0 <= to < v.len(),
    ensures
        orders_exactly(spec_reorder(v, from, to), n),
{
    crate::lemma_reorder_no_duplicates(v, from, to);
    let rm = v.remove(from);
    v.remove_ensures(from);
    rm.insert_ensures(to, v[from]);
    let r = spec_reorder(v, from, to);
    assert forall|k: int| 0 <= k < r.len() implies (#[trigger] r[k]) < n by {
        if k < to {
            assert(r[k] == rm[k]);
            if k < from {
                assert(rm[k] == v[k]);
            } else {
                assert(rm[k] == v[k + 1]);
            }
        } else if k == to {
            assert(r[k] == v[from]);
        } else {
            assert(r[k] == rm[k - 1]);
            if k - 1 < from {
                assert(rm[k - 1] == v[k - 1]);
            } else {
                assert(rm[k - 1] == v[k]);
            }
        }
    }
}

/// An ordering over `n` entries, read as task identifiers, is a complete
/// ballot over `n` tasks.
proof fn lemma_order_ids_rank(v: Seq<usize>, n: int)
    requires
        orders_exactly(v, n),
    ensures
        ranks_exactly(to_ids(v), n),
{
    let ids = to_ids(v);
    assert forall|p: int, q: int|
        0 <= p < ids.len() && 0 <= q < ids.len() && p != q implies ids[p] != ids[q] by {
        assert(ids[p] == TaskId(v[p]) && ids[q] == TaskId(v[q]));
    }
    assert forall|k: int| 0 <= k < ids.len() implies (#[trigger] ids[k]).0 < n by {
        assert(ids[k] == TaskId(v[k]));
    }
}

} // verus!
