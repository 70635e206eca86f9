use vstd::prelude::*;
use vstd::std_specs::iter::IteratorSpec;

verus! {

/// The most recent change made to a [`ChangeTrackingVec`].
pub enum VecDelta<T> {
    Extend { start_index: usize },
    Insert { index: usize },
    Remove { index: usize, item: T },
    Update { index: usize },
}

/// The successor of a change counter. It wraps, which takes 2^128 changes.
pub open spec fn succ(n: u128) -> u128 {
    if n == u128::MAX {
        0
    } else {
        (n + 1) as u128
    }
}

/// Identifies one state of one container: a change counter and the
/// container's identity tag.
#[derive(Debug, Clone, Copy, PartialEq, Eq)]
pub struct DeltaId {
    index: u128,
    object_id: u64,
}

impl DeltaId {
    pub closed spec fn counter(&self) -> u128 {
        self.index
    }

    pub closed spec fn tag(&self) -> u64 {
        self.object_id
    }

    pub proof fn lemma_eq(&self, other: &DeltaId)
        ensures
            (self.counter() == other.counter() && self.tag() == other.tag()) <==> *self == *other,
    {
    }

    /// The first state of the container tagged `object_id`.
    pub fn new(object_id: u64) -> (r: DeltaId)
        ensures
            r.counter() == 0,
            r.tag() == object_id,
    {
        DeltaId { index: 0, object_id }
    }

    /// Advance to the next state.
    pub fn next(&mut self)
        ensures
            final(self).counter() == succ(old(self).counter()),
            final(self).tag() == old(self).tag(),
    {
        self.index = self.index.wrapping_add(1);
    }

    /// Whether `self` is the state right after `previous`, of the same
    /// container.
    pub fn is_next(&self, previous: &DeltaId) -> (r: bool)
        ensures
            r == (self.counter() == succ(previous.counter()) && self.tag() == previous.tag()),
    {
        self.index == previous.index.wrapping_add(1) && self.object_id == previous.object_id
    }
}

/// Hands out identity tags, each one once: every tag it gave is below
/// `next_tag()`, and the next one it gives is `next_tag()`.
pub struct TagSource {
    next: u64,
}

impl TagSource {
    pub closed spec fn next_tag(&self) -> u64 {
        self.next
    }

    /// A source that has given no tag yet.
    pub fn new() -> (r: Self)
        ensures
            r.next_tag() == 0,
    {
        TagSource { next: 0 }
    }

    /// A tag never given before.
    pub fn fresh(&mut self) -> (r: u64)
        requires
            old(self).next_tag() < u64::MAX,
        ensures
            r == old(self).next_tag(),
            final(self).next_tag() == old(self).next_tag() + 1,
    {
        let r = self.next;
        self.next = self.next + 1;
        r
    }
}

/// A sequence that remembers its most recent change.
///
/// A consumer that has seen the state just before the last change can apply
/// that change to its own copy; any other consumer must treat the whole
/// sequence as changed.
pub struct ChangeTrackingVec<T> {
    data: Vec<T>,
    delta: Option<VecDelta<T>>,
    delta_id: DeltaId,
}

impl<T> View for ChangeTrackingVec<T> {
    type V = Seq<T>;

    closed spec fn view(&self) -> Seq<T> {
        self.data@
    }
}

impl<T> ChangeTrackingVec<T> {
    /// The most recent change, if any change was made.
    pub closed spec fn last_delta(&self) -> Option<VecDelta<T>> {
        self.delta
    }

    /// The current state.
    pub closed spec fn id(&self) -> DeltaId {
        self.delta_id
    }

    /// A container without a recorded change is still in its first state.
    pub open spec fn wf(&self) -> bool {
        self.last_delta() is None ==> self.id().counter() == 0
    }

    /// What [`delta`](Self::delta) returns for a consumer that last saw
    /// `previous`.
    pub open spec fn spec_delta(&self, previous: DeltaId) -> Option<VecDelta<T>> {
        if self.id().counter() == succ(previous.counter()) && self.id().tag() == previous.tag() {
            self.last_delta()
        } else {
            None
        }
    }

    /// The state after one more change, `d`, that left `data`.
    pub open spec fn changed(&self, data: Seq<T>, d: VecDelta<T>, next: &Self) -> bool {
        &&& next@ == data
        &&& next.last_delta() == Some(d)
        &&& next.id().counter() == succ(self.id().counter())
        &&& next.id().tag() == self.id().tag()
        &&& next.wf()
    }

    /// An empty sequence with a fresh identity tag from `tags`, and no change
    /// yet.
    pub fn new(tags: &mut TagSource) -> (r: Self)
        requires
            old(tags).next_tag() < u64::MAX,
        ensures
            final(tags).next_tag() == old(tags).next_tag() + 1,
            r.wf(),
            r@ == Seq::<T>::empty(),
            r.last_delta() is None,
            r.id().counter() == 0,
            r.id().tag() == old(tags).next_tag(),
    {
        let object_id = tags.fresh();
        ChangeTrackingVec { data: Vec::new(), delta: None, delta_id: DeltaId::new(object_id) }
    }

    /// A copy of the items with a fresh identity tag from `tags`, the source
    /// that tagged `self`, and no change yet: the copy and `self` evolve
    /// independently, so no change of one is ever handed to a consumer of the
    /// other.
    pub fn fork(&self, tags: &mut TagSource) -> (r: Self)
        where
            T: Clone,
        requires
            self.id().tag() < old(tags).next_tag() < u64::MAX,
        ensures
            final(tags).next_tag() == old(tags).next_tag() + 1,
            r.id().tag() != self.id().tag(),
            r.wf(),
            r@.len() == self@.len(),
            forall|i: int| 0 <= i < self@.len() ==> cloned(#[trigger] self@[i], r@[i]),
            r.last_delta() is None,
            r.id().counter() == 0,
            r.id().tag() == old(tags).next_tag(),
    {
        let object_id = tags.fresh();
        ChangeTrackingVec { data: self.data.clone(), delta: None, delta_id: DeltaId::new(object_id) }
    }

    fn set_delta(&mut self, delta: VecDelta<T>)
        ensures
            final(self)@ == old(self)@,
            final(self).last_delta() == Some(delta),
            final(self).id().counter() == succ(old(self).id().counter()),
            final(self).id().tag() == old(self).id().tag(),
            final(self).wf(),
    {
        self.delta = Some(delta);
        self.delta_id.next();
    }

    /// Append `item`.
    pub fn push(&mut self, item: T)
        ensures
            old(self).changed(
                old(self)@.push(item),
                VecDelta::Insert { index: old(self)@.len() as usize },
                final(self),
            ),
    {
        self.data.push(item);
        let index = self.data.len() - 1;
        self.set_delta(VecDelta::Insert { index });
    }

    /// Insert `item` at `index`, shifting the items after it.
    pub fn insert(&mut self, index: usize, item: T)
        requires
            index <= old(self)@.len(),
        ensures
            old(self).changed(
                old(self)@.insert(index as int, item),
                VecDelta::Insert { index },
                final(self),
            ),
    {
        self.data.insert(index, item);
        self.set_delta(VecDelta::Insert { index });
    }

    /// Remove the last item. The removed item is kept in the delta.
    pub fn pop(&mut self)
        requires
            old(self)@.len() > 0,
        ensures
            old(self).changed(
                old(self)@.drop_last(),
                VecDelta::Remove {
                    index: (old(self)@.len() - 1) as usize,
                    item: old(self)@.last(),
                },
                final(self),
            ),
    {
        let item = self.data.pop().unwrap();
        let index = self.data.len();
        self.set_delta(VecDelta::Remove { index, item });
    }

    /// Remove the item at `index`. The removed item is kept in the delta.
    pub fn remove(&mut self, index: usize)
        requires
            index < old(self)@.len(),
        ensures
            old(self).changed(
                old(self)@.remove(index as int),
                VecDelta::Remove { index, item: old(self)@[index as int] },
                final(self),
            ),
    {
        let item = self.data.remove(index);
        self.set_delta(VecDelta::Remove { index, item });
    }

    /// The items.
    pub fn data(&self) -> (r: &[T])
        ensures
            r@ == self@,
    {
        self.data.as_slice()
    }

    /// An iterator over the items, in order.
    pub fn iter(&self) -> (r: std::slice::Iter<'_, T>)
        ensures
            IteratorSpec::remaining(&r).unref() == self@,
    {
        self.data.as_slice().iter()
    }

    pub fn is_empty(&self) -> (r: bool)
        ensures
            r == (self@.len() == 0),
    {
        self.data.len() == 0
    }

    pub fn len(&self) -> (r: usize)
        ensures
            r == self@.len(),
    {
        self.data.len()
    }

    /// The item at `index`.
    pub fn index(&self, index: usize) -> (r: &T)
        requires
            index < self@.len(),
        ensures
            *r == self@[index as int],
    {
        &self.data[index]
    }

    /// The current state, for a consumer to ask later for the change that
    /// follows it.
    pub fn snapshot(&self) -> (r: DeltaId)
        ensures
            r == self.id(),
    {
        self.delta_id
    }

    /// The most recent change, provided `previous` is the state right before
    /// it; `None` otherwise.
    pub fn delta(&self, previous: &DeltaId) -> (r: Option<&VecDelta<T>>)
        ensures
            r is Some <==> self.spec_delta(*previous) is Some,
            r matches Some(d) ==> *d == self.spec_delta(*previous)->0,
    {
        if self.delta_id.is_next(previous) {
            self.delta.as_ref()
        } else {
            None
        }
    }
}

/// For any well-formed container, `delta` gives a change exactly when a change
/// was recorded and `previous` is the state right before it, of the same
/// container; a container that was never changed gives none.
pub proof fn lemma_delta_iff_predecessor<T>(v: ChangeTrackingVec<T>, previous: DeltaId)
    requires
        v.wf(),
    ensures
        v.spec_delta(previous) is Some <==> (v.last_delta() is Some && v.id().counter() == succ(
            previous.counter(),
        ) && v.id().tag() == previous.tag()),
        v.spec_delta(previous) matches Some(d) ==> Some(d) == v.last_delta(),
        v.last_delta() is None ==> v.id().counter() == 0 && v.spec_delta(previous) is None,
{
}

/// A consumer that took a snapshot just before a change gets that change, and
/// any other state, of this container or another one, gets `None`.
pub proof fn lemma_delta_only_for_predecessor<T>(
    before: ChangeTrackingVec<T>,
    data: Seq<T>,
    d: VecDelta<T>,
    after: ChangeTrackingVec<T>,
    previous: DeltaId,
)
    requires
        before.changed(data, d, &after),
    ensures
        after.spec_delta(previous) is Some <==> previous == before.id(),
        previous == before.id() ==> after.spec_delta(previous) == Some(d),
{
    previous.lemma_eq(&before.id());
}

} // verus!
