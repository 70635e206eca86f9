use vstd::prelude::*;

use crate::capacity::shrink_vec;
use crate::dom::{lemma_index_of_at, position};

verus! {

/// The children of the parent, in document order, restricted to the nodes held
/// by the slots, come in slot order: the slots' nodes all stand in `live`, and a
/// node of an earlier slot stands earlier.
pub open spec fn slot_order(live: Seq<usize>, slots: Seq<Option<usize>>) -> bool {
    &&& live.no_duplicates()
    &&& forall|i: int| 0 <= i < slots.len() && #[trigger] slots[i] is Some ==> live.contains(slots[i]->0)
    &&& forall|i: int, j: int, a: int, b: int|
        0 <= i < j < slots.len() && 0 <= a < live.len() && 0 <= b < live.len() && #[trigger] slots[i]
            == Some(#[trigger] live[a]) && #[trigger] slots[j] == Some(#[trigger] live[b]) ==> a < b
}

/// The first node held by a slot after slot `index`.
pub open spec fn next_group_elem(slots: Seq<Option<usize>>, index: int) -> Option<usize>
    decreases slots.len() - index,
{
    if index + 1 >= slots.len() || index + 1 < 0 {
        None
    } else if slots[index + 1] is Some {
        slots[index + 1]
    } else {
        next_group_elem(slots, index + 1)
    }
}

proof fn lemma_next_group_elem(slots: Seq<Option<usize>>, index: int)
    requires
        0 <= index,
    ensures
        next_group_elem(slots, index) is None ==> forall|m: int|
            index < m < slots.len() ==> #[trigger] slots[m] is None,
        next_group_elem(slots, index) is Some ==> exists|k: int|
            index < k < slots.len() && slots[k] == next_group_elem(slots, index) && forall|m: int|
                index < m < k ==> #[trigger] slots[m] is None,
    decreases slots.len() - index,
{
    if index + 1 < slots.len() && slots[index + 1] is None {
        lemma_next_group_elem(slots, index + 1);
        if next_group_elem(slots, index) is Some {
            let k = choose|k: int|
                index + 1 < k < slots.len() && slots[k] == next_group_elem(slots, index + 1)
                    && forall|m: int| index + 1 < m < k ==> #[trigger] slots[m] is None;
            assert(forall|m: int| index < m < k ==> #[trigger] slots[m] is None);
        }
    }
}

proof fn lemma_insert_keeps_order(
    live: Seq<usize>,
    slots: Seq<Option<usize>>,
    idx: int,
    c: usize,
    q: int,
)
    requires
        slot_order(live, slots),
        0 <= idx < slots.len(),
        slots[idx] is None,
        !live.contains(c),
        0 <= q <= live.len(),
        q == live.len() ==> forall|m: int| idx < m < slots.len() ==> #[trigger] slots[m] is None,
        q < live.len() ==> exists|k: int|
            idx < k < slots.len() && slots[k] == Some(live[q]) && forall|m: int|
                idx < m < k ==> #[trigger] slots[m] is None,
    ensures
        slot_order(live.insert(q, c), slots.update(idx, Some(c))),
{
    let nl = live.insert(q, c);
    let ns = slots.update(idx, Some(c));
    assert forall|a: int, b: int| 0 <= a < b < nl.len() implies nl[a] != nl[b] by {
        if a < q && b < q {
        } else if a < q && b == q {
            assert(live.contains(live[a]));
        } else if a < q && b > q {
            assert(nl[b] == live[b - 1]);
        } else if a > q {
            assert(nl[b] == live[b - 1]);
            assert(nl[a] == live[a - 1]);
        } else {
            assert(nl[a] == c);
            assert(nl[b] == live[b - 1]);
            assert(live.contains(live[b - 1]));
        }
    }
    assert forall|i: int| 0 <= i < ns.len() && #[trigger] ns[i] is Some implies nl.contains(ns[i]->0) by {
        if i == idx {
            assert(nl[q] == c);
        } else {
            let n = slots[i]->0;
            let a = choose|a: int| 0 <= a < live.len() && live[a] == n;
            if a < q {
                assert(nl[a] == n);
            } else {
                assert(nl[a + 1] == n);
            }
        }
    }
    assert forall|i: int, j: int, a: int, b: int|
        0 <= i < j < ns.len() && 0 <= a < nl.len() && 0 <= b < nl.len() && #[trigger] ns[i]
            == Some(#[trigger] nl[a]) && #[trigger] ns[j] == Some(#[trigger] nl[b]) implies a < b by {
        let a0 = if a < q { a } else { a - 1 };
        let b0 = if b < q { b } else { b - 1 };
        if i == idx {
            assert(nl[q] == c);
            assert(a == q) by {
                if a != q {
                    assert(nl[a] == live[a0]);
                    assert(live.contains(c));
                }
            }
            assert(slots[j] is Some);
            if q == live.len() {
                assert(false);
            } else {
                let k = choose|k: int|
                    idx < k < slots.len() && slots[k] == Some(live[q]) && forall|m: int|
                        idx < m < k ==> #[trigger] slots[m] is None;
                assert(j >= k);
                assert(b != q);
                assert(nl[b] == live[b0]);
                if j > k {
                    assert(q < b0);
                } else {
                    assert(b0 == q) by {
                        assert(live[b0] == live[q]);
                    }
                }
            }
        } else if j == idx {
            assert(nl[q] == c);
            assert(b == q) by {
                if b != q {
                    assert(nl[b] == live[b0]);
                    assert(live.contains(c));
                }
            }
            assert(a != q);
            assert(nl[a] == live[a0]);
            if q < live.len() {
                let k = choose|k: int|
                    idx < k < slots.len() && slots[k] == Some(live[q]) && forall|m: int|
                        idx < m < k ==> #[trigger] slots[m] is None;
                assert(slots[i] == Some(live[a0]));
                assert(slots[k] == Some(live[q]));
                assert(a0 < q);
            }
        } else {
            assert(a != q) by {
                if a == q {
                    assert(slots[i] == Some(c));
                    assert(live.contains(c));
                }
            }
            assert(b != q) by {
                if b == q {
                    assert(slots[j] == Some(c));
                    assert(live.contains(c));
                }
            }
            assert(nl[a] == live[a0]);
            assert(nl[b] == live[b0]);
            assert(slots[i] == Some(live[a0]));
            assert(slots[j] == Some(live[b0]));
        }
    }
}

proof fn lemma_clear_keeps_order(live: Seq<usize>, slots: Seq<Option<usize>>, idx: int)
    requires
        slot_order(live, slots),
        0 <= idx < slots.len(),
    ensures
        slot_order(live, slots.update(idx, None)),
{
    let ns = slots.update(idx, None);
    assert forall|i: int, j: int, a: int, b: int|
        0 <= i < j < ns.len() && 0 <= a < live.len() && 0 <= b < live.len() && #[trigger] ns[i]
            == Some(#[trigger] live[a]) && #[trigger] ns[j] == Some(#[trigger] live[b]) implies a < b by {
        assert(slots[i] == ns[i]);
        assert(slots[j] == ns[j]);
    }
}

proof fn lemma_remove_keeps_order(live: Seq<usize>, slots: Seq<Option<usize>>, idx: int, p: int)
    requires
        slot_order(live, slots),
        0 <= idx < slots.len(),
        0 <= p < live.len(),
        slots[idx] == Some(live[p]),
    ensures
        slot_order(live.remove(p), slots.update(idx, None)),
{
    let nl = live.remove(p);
    let ns = slots.update(idx, None);
    assert forall|a: int, b: int| 0 <= a < b < nl.len() implies nl[a] != nl[b] by {
        let a0 = if a < p { a } else { a + 1 };
        let b0 = if b < p { b } else { b + 1 };
        assert(nl[a] == live[a0]);
        assert(nl[b] == live[b0]);
    }
    assert forall|i: int| 0 <= i < ns.len() && #[trigger] ns[i] is Some implies nl.contains(ns[i]->0) by {
        let n = slots[i]->0;
        let a = choose|a: int| 0 <= a < live.len() && live[a] == n;
        assert(a != p);
        if a < p {
            assert(nl[a] == n);
        } else {
            assert(nl[a - 1] == n);
        }
    }
    assert forall|i: int, j: int, a: int, b: int|
        0 <= i < j < ns.len() && 0 <= a < nl.len() && 0 <= b < nl.len() && #[trigger] ns[i]
            == Some(#[trigger] nl[a]) && #[trigger] ns[j] == Some(#[trigger] nl[b]) implies a < b by {
        let a0 = if a < p { a } else { a + 1 };
        let b0 = if b < p { b } else { b + 1 };
        assert(nl[a] == live[a0]);
        assert(nl[b] == live[b0]);
        assert(slots[i] == Some(live[a0]));
        assert(slots[j] == Some(live[b0]));
    }
}

proof fn lemma_append_keeps_order(live: Seq<usize>, slots: Seq<Option<usize>>, c: usize, record: bool)
    requires
        slot_order(live, slots),
        !live.contains(c),
    ensures
        slot_order(live.push(c), if record { slots.push(Some(c)) } else { slots }),
{
    let nl = live.push(c);
    let ns = if record { slots.push(Some(c)) } else { slots };
    assert forall|a: int, b: int| 0 <= a < b < nl.len() implies nl[a] != nl[b] by {
        if b == live.len() {
            assert(live.contains(live[a]));
        }
    }
    assert forall|i: int| 0 <= i < ns.len() && #[trigger] ns[i] is Some implies nl.contains(ns[i]->0) by {
        if i < slots.len() {
            let n = slots[i]->0;
            let a = choose|a: int| 0 <= a < live.len() && live[a] == n;
            assert(nl[a] == n);
        } else {
            assert(nl[live.len() as int] == c);
        }
    }
    assert forall|i: int, j: int, a: int, b: int|
        0 <= i < j < ns.len() && 0 <= a < nl.len() && 0 <= b < nl.len() && #[trigger] ns[i]
            == Some(#[trigger] nl[a]) && #[trigger] ns[j] == Some(#[trigger] nl[b]) implies a < b by {
        assert(slots[i] == ns[i]);
        if a == live.len() {
            assert(slots[i] == Some(c));
            assert(live.contains(c));
        }
        if b == live.len() {
        } else {
            assert(j < slots.len()) by {
                if j == slots.len() {
                    assert(nl[b] == c);
                    assert(live.contains(live[b]));
                }
            }
            assert(slots[j] == ns[j]);
        }
    }
}

proof fn lemma_insert_unrecorded_keeps_order(live: Seq<usize>, slots: Seq<Option<usize>>, c: usize, q: int)
    requires
        slot_order(live, slots),
        !live.contains(c),
        0 <= q <= live.len(),
    ensures
        slot_order(live.insert(q, c), slots),
{
    let nl = live.insert(q, c);
    assert forall|a: int, b: int| 0 <= a < b < nl.len() implies nl[a] != nl[b] by {
        if a < q && b == q {
            assert(live.contains(live[a]));
        } else if a < q && b > q {
            assert(nl[b] == live[b - 1]);
        } else if a > q {
            assert(nl[b] == live[b - 1]);
            assert(nl[a] == live[a - 1]);
        } else if a == q {
            assert(nl[b] == live[b - 1]);
            assert(live.contains(live[b - 1]));
        }
    }
    assert forall|i: int| 0 <= i < slots.len() && #[trigger] slots[i] is Some implies nl.contains(
        slots[i]->0,
    ) by {
        let n = slots[i]->0;
        let a = choose|a: int| 0 <= a < live.len() && live[a] == n;
        if a < q {
            assert(nl[a] == n);
        } else {
            assert(nl[a + 1] == n);
        }
    }
    assert forall|i: int, j: int, a: int, b: int|
        0 <= i < j < slots.len() && 0 <= a < nl.len() && 0 <= b < nl.len() && #[trigger] slots[i]
            == Some(#[trigger] nl[a]) && #[trigger] slots[j] == Some(#[trigger] nl[b]) implies a < b by {
        let a0 = if a < q { a } else { a - 1 };
        let b0 = if b < q { b } else { b - 1 };
        if a == q {
            assert(live.contains(c));
        }
        if b == q {
            assert(live.contains(c));
        }
        assert(nl[a] == live[a0]);
        assert(nl[b] == live[b0]);
    }
}

/// The groups of dynamic children of one parent element.
///
/// Each group has a slot, which holds the node that currently stands for the
/// group, if any. The parent's children (node handles, in document order) are
/// kept here too, and a slot's node is always inserted right before the node of
/// the next occupied slot, so that the groups keep their declaration order.
pub struct ChildGroups {
    live: Vec<usize>,
    children: Vec<Option<usize>>,
    last_is_dynamic: bool,
    group_count: usize,
}

impl ChildGroups {
    /// The parent's children, in document order.
    pub closed spec fn live(&self) -> Seq<usize> {
        self.live@
    }

    /// The slots.
    pub closed spec fn slots(&self) -> Seq<Option<usize>> {
        self.children@
    }

    /// The number of groups, those without a slot included.
    pub closed spec fn groups(&self) -> nat {
        self.group_count as nat
    }

    /// Whether the last group may still change.
    pub closed spec fn last_dynamic(&self) -> bool {
        self.last_is_dynamic
    }

    pub open spec fn wf(&self) -> bool {
        &&& slot_order(self.live(), self.slots())
        &&& self.slots().len() <= self.groups()
    }

    /// No groups, and a parent without children.
    pub fn new() -> (r: Self)
        ensures
            r.wf(),
            r.live() == Seq::<usize>::empty(),
            r.slots() == Seq::<Option<usize>>::empty(),
            r.groups() == 0,
            !r.last_dynamic(),
    {
        ChildGroups { live: Vec::new(), children: Vec::new(), last_is_dynamic: false, group_count: 0 }
    }

    /// The parent's children, in document order.
    pub fn children(&self) -> (r: &Vec<usize>)
        ensures
            r@ == self.live(),
    {
        &self.live
    }

    pub fn is_single_group(&self) -> (r: bool)
        ensures
            r == (self.groups() == 1),
    {
        self.group_count == 1
    }

    /// Reserve an empty slot for a new group, the last one, which may change.
    pub fn new_group(&mut self) -> (r: usize)
        requires
            old(self).wf(),
            old(self).groups() < usize::MAX,
        ensures
            final(self).wf(),
            r == old(self).slots().len(),
            final(self).slots() == old(self).slots().push(None),
            final(self).live() == old(self).live(),
            final(self).groups() == old(self).groups() + 1,
            final(self).last_dynamic(),
    {
        self.group_count = self.group_count + 1;
        self.last_is_dynamic = true;
        let index = self.children.len();
        self.children.push(None);
        proof {
            let ns = self.children@;
            let os = ns.drop_last();
            assert forall|i: int, j: int, a: int, b: int|
                0 <= i < j < ns.len() && 0 <= a < self.live@.len() && 0 <= b < self.live@.len()
                    && #[trigger] ns[i] == Some(#[trigger] self.live@[a]) && #[trigger] ns[j] == Some(
                    #[trigger] self.live@[b],
                ) implies a < b by {
                assert(os[i] == ns[i]);
                assert(os[j] == ns[j]);
            }
        }
        index
    }

    /// The node of the first occupied slot after `index`.
    pub fn get_next_group_elem(&self, index: usize) -> (r: Option<usize>)
        requires
            index < self.slots().len(),
        ensures
            r == next_group_elem(self.slots(), index as int),
    {
        let n = self.children.len();
        let mut i: usize = index + 1;
        while i < n
            invariant
                index < i <= self.children@.len(),
                n == self.children@.len(),
                next_group_elem(self.slots(), index as int) == next_group_elem(
                    self.slots(),
                    i - 1,
                ),
            decreases n - i,
        {
            if self.children[i].is_some() {
                return self.children[i];
            }
            i = i + 1;
        }
        None
    }

    /// Append a group that will never change, right away. It gets no slot,
    /// but when the group before it may change, its node is recorded so that
    /// the changing group keeps its place before it.
    pub fn append_new_group_sync(&mut self, child: usize)
        requires
            old(self).wf(),
            !old(self).live().contains(child),
            old(self).groups() < usize::MAX,
        ensures
            final(self).wf(),
            final(self).live() == old(self).live().push(child),
            final(self).slots() == if old(self).last_dynamic() {
                old(self).slots().push(Some(child))
            } else {
                old(self).slots()
            },
            final(self).groups() == old(self).groups() + 1,
            !final(self).last_dynamic(),
    {
        proof {
            lemma_append_keeps_order(self.live@, self.children@, child, self.last_is_dynamic);
        }
        self.live.push(child);
        if self.last_is_dynamic {
            self.children.push(Some(child));
        }
        self.group_count = self.group_count + 1;
        self.last_is_dynamic = false;
    }

    /// Detach the node of slot `index`, if any, and empty the slot.
    ///
    /// Returns `true` iff the slot held a node.
    pub fn remove_child(&mut self, index: usize) -> (r: bool)
        requires
            old(self).wf(),
            index < old(self).slots().len(),
        ensures
            final(self).wf(),
            r == old(self).slots()[index as int] is Some,
            final(self).live() == detached(old(self).live(), old(self).slots(), index as int),
            final(self).slots() == old(self).slots().update(index as int, None),
            final(self).groups() == old(self).groups(),
            final(self).last_dynamic() == old(self).last_dynamic(),
    {
        match self.children[index] {
            Some(existing) => {
                proof {
                    assert(self.children@[index as int] is Some);
                }
                match position(&self.live, existing) {
                    Some(p) => {
                        proof {
                            lemma_remove_keeps_order(self.live@, self.children@, index as int, p as int);
                            lemma_index_of_at(self.live@, p as int);
                        }
                        self.live.remove(p);
                    },
                    None => {},
                }
                self.children.set(index, None);
                true
            },
            None => {
                proof {
                    assert(self.children@.update(index as int, None) == self.children@);
                }
                false
            },
        }
    }

    /// Put `child` in slot `index`, right before the node of the next occupied
    /// slot, after detaching the slot's previous node.
    ///
    /// Returns `true` iff there was a previous node.
    pub fn upsert_only_child(&mut self, index: usize, child: usize) -> (r: bool)
        requires
            old(self).wf(),
            index < old(self).slots().len(),
            !old(self).live().contains(child),
        ensures
            final(self).wf(),
            r == old(self).slots()[index as int] is Some,
            final(self).live() == inserted_before(
                detached(old(self).live(), old(self).slots(), index as int),
                next_group_elem(old(self).slots(), index as int),
                child,
            ),
            final(self).slots() == old(self).slots().update(index as int, Some(child)),
            final(self).groups() == old(self).groups(),
            final(self).last_dynamic() == old(self).last_dynamic(),
    {
        let ghost s0 = self.children@;
        let existed = self.remove_child(index);
        proof {
            assert forall|m: int| index < m < s0.len() implies #[trigger] self.children@[m] == s0[m] by {}
            lemma_next_group_elem_same(s0, self.children@, index as int);
            lemma_next_group_elem(self.children@, index as int);
        }
        self.insert_in_slot(index, child);
        existed
    }

    fn insert_in_slot(&mut self, index: usize, child: usize)
        requires
            old(self).wf(),
            index < old(self).slots().len(),
            old(self).slots()[index as int] is None,
            !old(self).live().contains(child),
        ensures
            final(self).wf(),
            final(self).live() == inserted_before(
                old(self).live(),
                next_group_elem(old(self).slots(), index as int),
                child,
            ),
            final(self).slots() == old(self).slots().update(index as int, Some(child)),
            final(self).groups() == old(self).groups(),
            final(self).last_dynamic() == old(self).last_dynamic(),
    {
        let anchor = self.get_next_group_elem(index);
        proof {
            lemma_next_group_elem(self.children@, index as int);
        }
        let q = match anchor {
            Some(a) => {
                proof {
                    let k = choose|k: int|
                        index < k < self.children@.len() && self.children@[k] == Some(a) && forall|m: int|
                            index < m < k ==> #[trigger] self.children@[m] is None;
                    assert(self.children@[k] is Some);
                }
                match position(&self.live, a) {
                    Some(p) => {
                        proof {
                            lemma_index_of_at(self.live@, p as int);
                        }
                        p
                    },
                    None => self.live.len(),
                }
            },
            None => self.live.len(),
        };
        proof {
            lemma_insert_keeps_order(self.live@, self.children@, index as int, child, q as int);
        }
        self.live.insert(q, child);
        self.children.set(index, Some(child));
    }

    /// Put `child` in the empty slot `index`.
    pub fn insert_only_child(&mut self, index: usize, child: usize)
        requires
            old(self).wf(),
            index < old(self).slots().len(),
            old(self).slots()[index as int] is None,
            !old(self).live().contains(child),
        ensures
            final(self).wf(),
            final(self).live() == inserted_before(
                old(self).live(),
                next_group_elem(old(self).slots(), index as int),
                child,
            ),
            final(self).slots() == old(self).slots().update(index as int, Some(child)),
            final(self).groups() == old(self).groups(),
            final(self).last_dynamic() == old(self).last_dynamic(),
    {
        self.insert_in_slot(index, child);
    }

    /// Insert `child` as the last node of group `index`: right before the node
    /// of the next occupied slot. The slots do not change.
    pub fn insert_last_child(&mut self, index: usize, child: usize)
        requires
            old(self).wf(),
            index < old(self).slots().len(),
            !old(self).live().contains(child),
        ensures
            final(self).wf(),
            final(self).live() == inserted_before(
                old(self).live(),
                next_group_elem(old(self).slots(), index as int),
                child,
            ),
            final(self).slots() == old(self).slots(),
            final(self).groups() == old(self).groups(),
            final(self).last_dynamic() == old(self).last_dynamic(),
    {
        let anchor = self.get_next_group_elem(index);
        let q = match anchor {
            Some(a) => match position(&self.live, a) {
                Some(p) => {
                    proof {
                        lemma_index_of_at(self.live@, p as int);
                        lemma_next_group_elem(self.children@, index as int);
                        let k = choose|k: int|
                            index < k < self.children@.len() && self.children@[k] == Some(a)
                                && forall|m: int| index < m < k ==> #[trigger] self.children@[m] is None;
                        assert(self.children@[k] is Some);
                    }
                    p
                },
                None => {
                    proof {
                        lemma_next_group_elem(self.children@, index as int);
                        let k = choose|k: int|
                            index < k < self.children@.len() && self.children@[k] == Some(a)
                                && forall|m: int| index < m < k ==> #[trigger] self.children@[m] is None;
                        assert(self.children@[k] is Some);
                    }
                    self.live.len()
                },
            },
            None => self.live.len(),
        };
        proof {
            lemma_insert_unrecorded_keeps_order(self.live@, self.children@, child, q as int);
        }
        self.live.insert(q, child);
    }

    /// Record `child`, already in place among the parent's children, as the
    /// node of slot `index`.
    pub fn set_first_child(&mut self, index: usize, child: usize)
        requires
            old(self).wf(),
            index < old(self).slots().len(),
            slot_order(old(self).live(), old(self).slots().update(index as int, Some(child))),
        ensures
            final(self).wf(),
            final(self).live() == old(self).live(),
            final(self).slots() == old(self).slots().update(index as int, Some(child)),
            final(self).groups() == old(self).groups(),
            final(self).last_dynamic() == old(self).last_dynamic(),
    {
        self.children.set(index, Some(child));
    }

    /// Release unused capacity of the slots.
    pub fn shrink_to_fit(&mut self)
        requires
            old(self).wf(),
        ensures
            final(self).wf(),
            final(self).live() == old(self).live(),
            final(self).slots() == old(self).slots(),
            final(self).groups() == old(self).groups(),
            final(self).last_dynamic() == old(self).last_dynamic(),
    {
        shrink_vec(&mut self.children);
    }

    /// Forget the node of slot `index`, leaving the parent's children as they are.
    pub fn clear_first_child(&mut self, index: usize)
        requires
            old(self).wf(),
            index < old(self).slots().len(),
        ensures
            final(self).wf(),
            final(self).live() == old(self).live(),
            final(self).slots() == old(self).slots().update(index as int, None),
            final(self).groups() == old(self).groups(),
            final(self).last_dynamic() == old(self).last_dynamic(),
    {
        proof {
            lemma_clear_keeps_order(self.live@, self.children@, index as int);
        }
        self.children.set(index, None);
    }
}

/// `live` with the node of slot `index` taken out, if the slot holds one.
pub open spec fn detached(live: Seq<usize>, slots: Seq<Option<usize>>, index: int) -> Seq<usize> {
    match slots[index] {
        Some(n) => live.remove(live.index_of(n)),
        None => live,
    }
}

/// `live` with `c` inserted right before `anchor`, or at the end without one.
pub open spec fn inserted_before(live: Seq<usize>, anchor: Option<usize>, c: usize) -> Seq<usize> {
    match anchor {
        Some(a) => live.insert(live.index_of(a), c),
        None => live.push(c),
    }
}

proof fn lemma_next_group_elem_same(s0: Seq<Option<usize>>, s1: Seq<Option<usize>>, index: int)
    requires
        0 <= index,
        s0.len() == s1.len(),
        forall|m: int| index < m < s0.len() ==> #[trigger] s1[m] == s0[m],
    ensures
        next_group_elem(s0, index) == next_group_elem(s1, index),
    decreases s0.len() - index,
{
    if index + 1 < s0.len() {
        lemma_next_group_elem_same(s0, s1, index + 1);
    }
}

/// At every point, the parent's children hold the nodes of the slots in slot
/// order: a node of a lower slot stands before a node of a higher slot.
pub proof fn lemma_children_in_slot_order(g: &ChildGroups, i: int, j: int, a: int, b: int)
    requires
        g.wf(),
        0 <= i < j < g.slots().len(),
        0 <= a < g.live().len(),
        0 <= b < g.live().len(),
        g.slots()[i] == Some(g.live()[a]),
        g.slots()[j] == Some(g.live()[b]),
    ensures
        a < b,
{
}

} // verus!
