use vstd::prelude::*;

use crate::tree::{LiveTree, NodeEntry, node_depth, ancestor, lemma_depth_below_fuel, lemma_ancestor_depth};

verus! {

/// An update waiting for the next paint opportunity, with the node that owns it.
pub struct Queued<U> {
    pub owner: usize,
    pub update: U,
}

/// The queued updates whose owner lies at depth `d`, in queue order.
pub open spec fn at_depth<U>(nodes: Seq<NodeEntry>, q: Seq<Queued<U>>, d: nat) -> Seq<Queued<U>> {
    q.filter(|x: Queued<U>| node_depth(nodes, x.owner as int) == Some(d))
}

/// The queued updates whose owner lies above depth `k`, shallowest first and
/// in queue order at each depth.
pub open spec fn above_depth<U>(nodes: Seq<NodeEntry>, q: Seq<Queued<U>>, k: nat) -> Seq<Queued<U>>
    decreases k,
{
    if k == 0 {
        Seq::empty()
    } else {
        above_depth(nodes, q, (k - 1) as nat) + at_depth(nodes, q, (k - 1) as nat)
    }
}

/// The order in which a flush applies the queued updates `q`: the updates of
/// expired owners are dropped and the rest are stably ordered by the depth of
/// their owner, ancestors first.
pub open spec fn flush_order<U>(nodes: Seq<NodeEntry>, q: Seq<Queued<U>>) -> Seq<Queued<U>> {
    above_depth(nodes, q, nodes.len())
}

proof fn lemma_above_depth_sorted<U>(nodes: Seq<NodeEntry>, q: Seq<Queued<U>>, k: nat)
    ensures
        forall|i: int|
            0 <= i < above_depth(nodes, q, k).len() ==> {
                let o = #[trigger] above_depth(nodes, q, k)[i].owner as int;
                node_depth(nodes, o) is Some && node_depth(nodes, o)->0 < k
            },
        forall|i: int, j: int|
            0 <= i < j < above_depth(nodes, q, k).len() ==> node_depth(
                nodes,
                #[trigger] above_depth(nodes, q, k)[i].owner as int,
            )->0 <= node_depth(nodes, #[trigger] above_depth(nodes, q, k)[j].owner as int)->0,
    decreases k,
{
    if k > 0 {
        let k1 = (k - 1) as nat;
        lemma_above_depth_sorted(nodes, q, k1);
        let pre = above_depth(nodes, q, k1);
        let pred = |x: Queued<U>| node_depth(nodes, x.owner as int) == Some(k1);
        let cur = at_depth(nodes, q, k1);
        let all = above_depth(nodes, q, k);
        assert(all == pre + cur);
        assert forall|i: int| 0 <= i < cur.len() implies #[trigger] node_depth(
            nodes,
            cur[i].owner as int,
        ) == Some(k1) by {
            q.lemma_filter_pred(pred, i);
        }
        assert forall|i: int| 0 <= i < all.len() implies {
            let o = #[trigger] all[i].owner as int;
            node_depth(nodes, o) is Some && node_depth(nodes, o)->0 < k
        } by {
            if i >= pre.len() {
                assert(all[i] == cur[i - pre.len()]);
            }
        }
        assert forall|i: int, j: int| 0 <= i < j < all.len() implies node_depth(
            nodes,
            #[trigger] all[i].owner as int,
        )->0 <= node_depth(nodes, #[trigger] all[j].owner as int)->0 by {
            if j < pre.len() {
                assert(all[i] == pre[i]);
                assert(all[j] == pre[j]);
            } else if i < pre.len() {
                assert(all[i] == pre[i]);
                assert(all[j] == cur[j - pre.len()]);
            } else {
                assert(all[i] == cur[i - pre.len()]);
                assert(all[j] == cur[j - pre.len()]);
            }
        }
    }
}

/// Within one flush, an update whose owner is an ancestor of another update's
/// owner is applied first, and no update of an expired owner is applied.
pub proof fn lemma_ancestors_apply_first<U>(nodes: Seq<NodeEntry>, q: Seq<Queued<U>>)
    ensures
        forall|i: int|
            0 <= i < flush_order(nodes, q).len() ==> node_depth(
                nodes,
                #[trigger] flush_order(nodes, q)[i].owner as int,
            ) is Some,
        forall|i: int, j: int, k: nat|
            0 <= i < flush_order(nodes, q).len() && 0 <= j < flush_order(nodes, q).len() && k > 0
                && #[trigger] ancestor(nodes, flush_order(nodes, q)[j].owner as int, k) == Some(
                #[trigger] flush_order(nodes, q)[i].owner as int,
            ) ==> i < j,
{
    let out = flush_order(nodes, q);
    lemma_above_depth_sorted(nodes, q, nodes.len());
    assert forall|i: int, j: int, k: nat|
        0 <= i < out.len() && 0 <= j < out.len() && k > 0 && #[trigger] ancestor(
            nodes,
            out[j].owner as int,
            k,
        ) == Some(#[trigger] out[i].owner as int) implies i < j by {
        lemma_ancestor_depth(nodes, out[j].owner as int, k);
        if j <= i {
            assert(out[j] == above_depth(nodes, q, nodes.len())[j]);
        }
    }
}

/// The queues of pending structural updates and of effects, with their
/// lifecycle: filled by the runtime, drained by each flush.
///
/// A paint opportunity is requested exactly when a queue goes from empty to
/// non-empty, so any number of updates queued before a flush cause one
/// request.
pub struct Scheduler<U, E> {
    updates: Vec<Queued<U>>,
    effects: Vec<E>,
}

impl<U, E> Scheduler<U, E> {
    pub closed spec fn pending(&self) -> Seq<Queued<U>> {
        self.updates@
    }

    pub closed spec fn pending_effects(&self) -> Seq<E> {
        self.effects@
    }

    pub open spec fn idle(&self) -> bool {
        self.pending().len() == 0 && self.pending_effects().len() == 0
    }

    /// Empty queues.
    pub fn new() -> (r: Self)
        ensures
            r.pending() == Seq::<Queued<U>>::empty(),
            r.pending_effects() == Seq::<E>::empty(),
    {
        Scheduler { updates: Vec::new(), effects: Vec::new() }
    }

    /// `true` when nothing waits for a flush.
    pub fn is_idle(&self) -> (r: bool)
        ensures
            r == self.idle(),
    {
        self.updates.len() == 0 && self.effects.len() == 0
    }

    /// Queue `update`, owned by node `owner`.
    ///
    /// Returns `true` when the caller must request a paint opportunity: when
    /// no update was queued before.
    pub fn queue_update(&mut self, owner: usize, update: U) -> (r: bool)
        ensures
            r == (old(self).pending().len() == 0),
            final(self).pending() == old(self).pending().push(Queued { owner, update }),
            final(self).pending_effects() == old(self).pending_effects(),
    {
        let r = self.updates.len() == 0;
        self.updates.push(Queued { owner, update });
        r
    }

    /// Queue an effect, to run after the structural updates of the next flush.
    ///
    /// Returns `true` when the caller must request a paint opportunity: when
    /// no effect was queued before.
    pub fn queue_effect(&mut self, effect: E) -> (r: bool)
        ensures
            r == (old(self).pending_effects().len() == 0),
            final(self).pending() == old(self).pending(),
            final(self).pending_effects() == old(self).pending_effects().push(effect),
    {
        let r = self.effects.len() == 0;
        self.effects.push(effect);
        r
    }

    /// Drain the update queue at a paint opportunity, and return the updates
    /// in the order they must be applied (see [`flush_order`]). The effects
    /// stay queued: they are taken, with any that the updates queue, by
    /// [`take_effects`](Self::take_effects) once every update was applied.
    pub fn process_updates(&mut self, tree: &LiveTree) -> (r: Vec<Queued<U>>)
        ensures
            r@ == flush_order(tree@, old(self).pending()),
            final(self).pending().len() == 0,
            final(self).pending_effects() == old(self).pending_effects(),
    {
        let mut updates: Vec<Queued<U>> = Vec::new();
        std::mem::swap(&mut updates, &mut self.updates);
        order_by_depth(updates, tree)
    }

    /// Drain the effect queue, after the structural updates of a flush: the
    /// effects, in queue order.
    pub fn take_effects(&mut self) -> (r: Vec<E>)
        ensures
            r@ == old(self).pending_effects(),
            final(self).pending_effects().len() == 0,
            final(self).pending() == old(self).pending(),
    {
        let mut effects: Vec<E> = Vec::new();
        std::mem::swap(&mut effects, &mut self.effects);
        effects
    }
}

/// The first `k` updates of `q` belong to expired owners.
pub open spec fn expired_prefix<U>(nodes: Seq<NodeEntry>, q: Seq<Queued<U>>, k: int) -> bool {
    forall|i: int| 0 <= i < k ==> node_depth(nodes, (#[trigger] q[i]).owner as int) is None
}

/// Take, from the front of `ordered`, the next update whose owner still
/// exists, dropping those before it whose owner expired, possibly while this
/// flush applied earlier updates (an ancestor was rebuilt).
pub fn next_live<U>(ordered: &mut Vec<Queued<U>>, tree: &LiveTree) -> (r: Option<Queued<U>>)
    ensures
        r is None ==> final(ordered)@.len() == 0 && forall|i: int|
            0 <= i < old(ordered)@.len() ==> node_depth(tree@, (#[trigger] old(ordered)@[i]).owner as int) is None,
        r matches Some(q) ==> ({
            let k = old(ordered)@.len() - final(ordered)@.len() - 1;
            &&& node_depth(tree@, q.owner as int) is Some
            &&& 0 <= k < old(ordered)@.len()
            &&& old(ordered)@[k] == q
            &&& expired_prefix(tree@, old(ordered)@, k)
            &&& final(ordered)@ == old(ordered)@.subrange(k + 1, old(ordered)@.len() as int)
        }),
{
    let ghost q0 = ordered@;
    let mut rest: Vec<Queued<U>> = Vec::new();
    std::mem::swap(&mut rest, ordered);
    let mut found: Option<Queued<U>> = None;
    let ghost mut k: int = 0;
    while found.is_none() && rest.len() > 0
        invariant
            0 <= k <= q0.len(),
            expired_prefix(tree@, q0, k),
            found is None ==> rest@ == q0.subrange(k, q0.len() as int),
            found matches Some(q) ==> k < q0.len() && q0[k] == q && node_depth(tree@, q.owner as int) is Some
                && rest@ == q0.subrange(k + 1, q0.len() as int),
        decreases rest.len(), if found is None { 1int } else { 0int },
    {
        let q = rest.remove(0);
        assert(q == q0[k]);
        if tree.is_live(q.owner) {
            found = Some(q);
        } else {
            proof {
                k = k + 1;
            }
        }
    }
    *ordered = rest;
    found
}

/// Drop the updates of expired owners and stably order the rest by depth.
fn order_by_depth<U>(updates: Vec<Queued<U>>, tree: &LiveTree) -> (r: Vec<Queued<U>>)
    ensures
        r@ == above_depth(tree@, updates@, tree@.len()),
{
    let ghost q = updates@;
    let ghost nodes = tree@;
    let total = updates.len();
    let n = tree.len();
    let mut buckets: Vec<Vec<Queued<U>>> = Vec::new();
    let mut k: usize = 0;
    while k < n
        invariant
            n == nodes.len(),
            k <= n,
            buckets@.len() == k,
            forall|d: int| 0 <= d < k ==> #[trigger] buckets@[d]@ == Seq::<Queued<U>>::empty(),
        decreases n - k,
    {
        buckets.push(Vec::new());
        k = k + 1;
    }
    proof {
        assert forall|d: int| 0 <= d < n implies #[trigger] buckets@[d]@ == at_depth(
            nodes,
            q.subrange(0, 0),
            d as nat,
        ) by {
            reveal(Seq::filter);
        }
    }
    let mut rest = updates;
    let mut i: usize = 0;
    while rest.len() > 0
        invariant
            n == nodes.len(),
            nodes == tree@,
            i <= q.len(),
            q.len() == total,
            rest@ == q.subrange(i as int, q.len() as int),
            buckets@.len() == n,
            forall|d: int|
                0 <= d < n ==> #[trigger] buckets@[d]@ == at_depth(
                    nodes,
                    q.subrange(0, i as int),
                    d as nat,
                ),
        decreases rest.len(),
    {
        let item = rest.remove(0);
        let ghost prefix = q.subrange(0, i as int);
        assert(q.subrange(0, i + 1) == prefix.push(item));
        assert(q.subrange(0, i + 1).drop_last() == prefix);
        let depth = tree.depth(item.owner);
        match depth {
            Some(d) => {
                proof {
                    lemma_depth_below_fuel(nodes, item.owner as int, n as nat);
                }
                let ghost before = buckets@;
                let mut bucket = buckets.remove(d);
                bucket.push(item);
                buckets.insert(d, bucket);
                proof {
                    assert forall|e: int| 0 <= e < n implies #[trigger] buckets@[e]@ == at_depth(
                        nodes,
                        q.subrange(0, i + 1),
                        e as nat,
                    ) by {
                        reveal(Seq::filter);
                        if e != d {
                            assert(buckets@[e] == before[e]);
                        }
                    }
                }
            },
            None => {
                proof {
                    assert forall|e: int| 0 <= e < n implies #[trigger] buckets@[e]@ == at_depth(
                        nodes,
                        q.subrange(0, i + 1),
                        e as nat,
                    ) by {
                        reveal(Seq::filter);
                    }
                }
            },
        }
        i = i + 1;
    }
    assert(q.subrange(0, i as int) == q);
    let mut out: Vec<Queued<U>> = Vec::new();
    let mut d: usize = 0;
    while d < n
        invariant
            n == nodes.len(),
            d <= n,
            buckets@.len() == n - d,
            forall|e: int|
                0 <= e < n - d ==> #[trigger] buckets@[e]@ == at_depth(nodes, q, (e + d) as nat),
            out@ == above_depth(nodes, q, d as nat),
        decreases n - d,
    {
        let ghost before = buckets@;
        let mut bucket = buckets.remove(0);
        let ghost b = bucket@;
        let ghost start = out@;
        let ghost mut j: int = 0;
        while bucket.len() > 0
            invariant
                0 <= j <= b.len(),
                out@ == start + b.subrange(0, j),
                bucket@ == b.subrange(j, b.len() as int),
            decreases bucket.len(),
        {
            let item = bucket.remove(0);
            out.push(item);
            proof {
                assert(b.subrange(0, j + 1) == b.subrange(0, j).push(item));
                j = j + 1;
            }
            assert(out@ == start + b.subrange(0, j));
            assert(bucket@ == b.subrange(j, b.len() as int));
        }
        assert(b.subrange(0, b.len() as int) == b);
        proof {
            assert forall|e: int| 0 <= e < n - (d + 1) implies #[trigger] buckets@[e]@ == at_depth(
                nodes,
                q,
                (e + d + 1) as nat,
            ) by {
                assert(buckets@[e] == before[e + 1]);
            }
        }
        d = d + 1;
    }
    out
}

} // verus!
