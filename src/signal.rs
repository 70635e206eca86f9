use vstd::prelude::*;

use crate::dom::{DomElement, DomNodeData, DomOp, Update};
use crate::scheduler::{Queued, Scheduler};

verus! {

/// The write side of a signal: its current value, the single slot holding the
/// value intended by the mutations requested since the last flush, and the
/// elements rendered from the value, which it owns.
///
/// `signal` identifies the signal in the scheduler's queue and `owner` is the
/// node whose depth orders its update.
pub struct Setter<T> {
    current: T,
    pending: Option<T>,
    dependents: Vec<DomElement>,
    signal: usize,
    owner: usize,
}

impl<T> Setter<T> {
    pub closed spec fn value(&self) -> T {
        self.current
    }

    pub closed spec fn intended(&self) -> Option<T> {
        self.pending
    }

    /// The elements currently rendered from the value.
    pub closed spec fn dependents(&self) -> Seq<DomElement> {
        self.dependents@
    }

    pub closed spec fn id(&self) -> usize {
        self.signal
    }

    pub closed spec fn owner(&self) -> usize {
        self.owner
    }

    /// The value that the next flush will make current.
    pub open spec fn base(&self) -> T {
        match self.intended() {
            Some(v) => v,
            None => self.value(),
        }
    }

    /// The queue entry of this signal.
    pub open spec fn entry(&self) -> Queued<Update> {
        Queued { owner: self.owner(), update: Update::Signal { signal: self.id() } }
    }

    /// The queue after a mutation was requested on `self`: the signal is queued
    /// once, when nothing was pending.
    pub open spec fn queued_after<E>(&self, before: Scheduler<Update, E>, after: Scheduler<Update, E>, r: bool) -> bool {
        &&& after.pending_effects() == before.pending_effects()
        &&& if self.intended() is None {
            &&& after.pending() == before.pending().push(self.entry())
            &&& r == (before.pending().len() == 0)
        } else {
            &&& after.pending() == before.pending()
            &&& !r
        }
    }

    /// A signal holding `init`, with no dependents and nothing pending.
    fn new(init: T, signal: usize, owner: usize) -> (r: Self)
        ensures
            r.value() == init,
            r.intended() is None,
            r.dependents() == Seq::<DomElement>::empty(),
            r.id() == signal,
            r.owner() == owner,
    {
        Setter { current: init, pending: None, dependents: Vec::new(), signal, owner }
    }

    fn request<E>(&self, scheduler: &mut Scheduler<Update, E>) -> (r: bool)
        ensures
            self.queued_after(*old(scheduler), *final(scheduler), r),
    {
        if self.pending.is_none() {
            scheduler.queue_update(self.owner, Update::Signal { signal: self.signal })
        } else {
            false
        }
    }

    /// Request that the value become `new_value` at the next flush. When
    /// nothing was pending, the signal is queued with `scheduler`.
    ///
    /// Returns `true` when a paint opportunity must be requested.
    pub fn set<E>(&mut self, scheduler: &mut Scheduler<Update, E>, new_value: T) -> (r: bool)
        ensures
            set_step(*old(self), *old(scheduler), new_value, *final(self), *final(scheduler), r),
    {
        let r = self.request(scheduler);
        self.pending = Some(new_value);
        r
    }

    /// Request that the value become `f` of the value intended so far. When
    /// nothing was pending, the signal is queued with `scheduler`.
    ///
    /// Returns `true` when a paint opportunity must be requested.
    pub fn map<E, F: FnOnce(&T) -> T>(&mut self, scheduler: &mut Scheduler<Update, E>, f: F) -> (r: bool)
        requires
            f.requires((&old(self).base(),)),
        ensures
            old(self).queued_after(*old(scheduler), *final(scheduler), r),
            final(self).intended() is Some,
            f.ensures((&old(self).base(),), final(self).intended()->0),
            final(self).value() == old(self).value(),
            final(self).dependents() == old(self).dependents(),
            final(self).id() == old(self).id(),
            final(self).owner() == old(self).owner(),
    {
        let r = self.request(scheduler);
        let next = match &self.pending {
            Some(p) => f(p),
            None => f(&self.current),
        };
        self.pending = Some(next);
        r
    }

    /// Request a mutation: `f` receives the value intended so far and returns
    /// the new one. Mutations requested before one flush compose in call order,
    /// and the signal is queued once.
    ///
    /// Returns `true` when a paint opportunity must be requested.
    pub fn edit<E, F: FnOnce(&T) -> T>(&mut self, scheduler: &mut Scheduler<Update, E>, f: F) -> (r: bool)
        requires
            f.requires((&old(self).base(),)),
        ensures
            old(self).queued_after(*old(scheduler), *final(scheduler), r),
            final(self).intended() is Some,
            f.ensures((&old(self).base(),), final(self).intended()->0),
            final(self).value() == old(self).value(),
            final(self).dependents() == old(self).dependents(),
            final(self).id() == old(self).id(),
            final(self).owner() == old(self).owner(),
    {
        self.map(scheduler, f)
    }

    /// At a flush, make the pending value current and rebuild every dependent
    /// from it, in order: dependent `i` is replaced by `generate(i, &value)`,
    /// called once for it.
    ///
    /// Returns, for each dependent in order, the mutation that puts the new
    /// node in place of the old one. The caller applies them in the same flush,
    /// to the dependents' parents; each carries the old element, which applying
    /// it hands back for teardown.
    ///
    /// Only the flush calls this, for a queued signal: a mutation is pending.
    pub fn apply<F: Fn(usize, &T) -> DomElement>(&mut self, generate: F) -> (r: Vec<DomOp>)
        requires
            old(self).intended() is Some,
            forall|i: usize| #[trigger] generate.requires((i, &old(self).intended()->0)),
        ensures
            final(self).value() == old(self).intended()->0,
            final(self).intended() is None,
            final(self).id() == old(self).id(),
            final(self).owner() == old(self).owner(),
            final(self).dependents().len() == old(self).dependents().len(),
            r@.len() == old(self).dependents().len(),
            forall|i: int|
                0 <= i < r@.len() ==> generate.ensures(
                    (i as usize, &final(self).value()),
                    #[trigger] final(self).dependents()[i],
                ) && r@[i] == replacement(
                    final(self).dependents()[i],
                    old(self).dependents()[i],
                ),
    {
        let mut slot: Option<T> = None;
        std::mem::swap(&mut slot, &mut self.pending);
        match slot {
            Some(v) => {
                self.current = v;
            },
            None => {},
        }
        let ghost before = self.dependents@;
        let n = self.dependents.len();
        let mut ops: Vec<DomOp> = Vec::new();
        let mut i: usize = 0;
        while i < n
            invariant
                n == before.len(),
                i <= n,
                self.dependents@.len() == n,
                self.current == old(self).intended()->0,
                self.pending is None,
                self.signal == old(self).signal,
                self.owner == old(self).owner,
                forall|k: usize| #[trigger] generate.requires((k, &old(self).intended()->0)),
                ops@.len() == i,
                forall|k: int| i <= k < n ==> #[trigger] self.dependents@[k] == before[k],
                forall|k: int|
                    0 <= k < i ==> generate.ensures(
                        (k as usize, &self.current),
                        #[trigger] self.dependents@[k],
                    ) && ops@[k] == replacement(self.dependents@[k], before[k]),
            decreases n - i,
        {
            let fresh = generate(i, &self.current);
            let new_child = fresh.node();
            let stale = self.dependents.remove(i);
            self.dependents.insert(i, fresh);
            ops.push(DomOp::Replace { new_child, old_child: DomNodeData::Element(stale) });
            i = i + 1;
        }
        ops
    }

    /// Render an element from the current value, keep it as a dependent, and
    /// return its node for the caller to attach.
    pub fn with<F: Fn(&T) -> DomElement>(&mut self, generate: F) -> (r: usize)
        requires
            generate.requires((&old(self).value(),)),
        ensures
            final(self).dependents().len() == old(self).dependents().len() + 1,
            final(self).dependents().drop_last() == old(self).dependents(),
            generate.ensures((&old(self).value(),), final(self).dependents().last()),
            r == final(self).dependents().last().handle(),
            final(self).value() == old(self).value(),
            final(self).intended() == old(self).intended(),
            final(self).id() == old(self).id(),
            final(self).owner() == old(self).owner(),
    {
        let elem = generate(&self.current);
        let node = elem.node();
        self.dependents.push(elem);
        proof {
            assert(self.dependents@.drop_last() =~= old(self).dependents@);
        }
        node
    }

    /// The current value.
    pub fn current(&self) -> (r: &T)
        ensures
            *r == self.value(),
    {
        &self.current
    }

    /// The node of dependent `index`.
    pub fn dependent_node(&self, index: usize) -> (r: usize)
        requires
            index < self.dependents().len(),
        ensures
            r == self.dependents()[index as int].handle(),
    {
        self.dependents[index].node()
    }

    /// The signal's identity in the scheduler's queue.
    pub fn signal(&self) -> (r: usize)
        ensures
            r == self.id(),
    {
        self.signal
    }
}

/// The mutation that puts `fresh`'s node in place of `stale`'s, carrying
/// `stale` for teardown.
pub open spec fn replacement(fresh: DomElement, stale: DomElement) -> DomOp {
    DomOp::Replace { new_child: fresh.handle(), old_child: DomNodeData::Element(stale) }
}

/// A signal: an observable value whose changes are batched until the next
/// flush.
pub struct State<T>(Setter<T>);

impl<T> State<T> {
    pub closed spec fn cell(&self) -> Setter<T> {
        self.0
    }

    /// A signal holding `init`, with no dependents, known to the scheduler as
    /// `signal` and ordered by the depth of node `owner`.
    pub fn new(init: T, signal: usize, owner: usize) -> (r: Self)
        ensures
            r.cell().value() == init,
            r.cell().intended() is None,
            r.cell().dependents() == Seq::<DomElement>::empty(),
            r.cell().id() == signal,
            r.cell().owner() == owner,
    {
        State(Setter::new(init, signal, owner))
    }

    /// The write handle.
    pub fn setter(&mut self) -> (r: &mut Setter<T>)
        ensures
            *r == old(self).cell(),
            final(self).cell() == *final(r),
    {
        &mut self.0
    }

    /// Render an element from the current value, keep it as a dependent that
    /// later flushes regenerate, and return its node.
    pub fn with<F: Fn(&T) -> DomElement>(&mut self, generate: F) -> (r: usize)
        requires
            generate.requires((&old(self).cell().value(),)),
        ensures
            final(self).cell().dependents().drop_last() == old(self).cell().dependents(),
            final(self).cell().dependents().len() == old(self).cell().dependents().len() + 1,
            generate.ensures((&old(self).cell().value(),), final(self).cell().dependents().last()),
            r == final(self).cell().dependents().last().handle(),
            final(self).cell().value() == old(self).cell().value(),
            final(self).cell().intended() == old(self).cell().intended(),
            final(self).cell().id() == old(self).cell().id(),
            final(self).cell().owner() == old(self).cell().owner(),
    {
        self.0.with(generate)
    }
}

/// One call of [`Setter::set`]: from signal `b` and queues `qb`, setting `v`
/// gave signal `a`, queues `qa` and result `r`.
pub open spec fn set_step<T, E>(
    b: Setter<T>,
    qb: Scheduler<Update, E>,
    v: T,
    a: Setter<T>,
    qa: Scheduler<Update, E>,
    r: bool,
) -> bool {
    &&& b.queued_after(qb, qa, r)
    &&& a.intended() == Some(v)
    &&& a.value() == b.value()
    &&& a.dependents() == b.dependents()
    &&& a.id() == b.id()
    &&& a.owner() == b.owner()
}

/// Call `i` of a run of `set` calls: it took `ss[i]` and `qs[i]` to
/// `ss[i + 1]` and `qs[i + 1]`, setting `vals[i]` and returning `rs[i]`.
pub open spec fn chain_step<T, E>(
    ss: Seq<Setter<T>>,
    qs: Seq<Scheduler<Update, E>>,
    vals: Seq<T>,
    rs: Seq<bool>,
    i: int,
) -> bool {
    set_step(ss[i], qs[i], vals[i], ss[i + 1], qs[i + 1], rs[i])
}

proof fn lemma_sets_prefix<T, E>(
    ss: Seq<Setter<T>>,
    qs: Seq<Scheduler<Update, E>>,
    vals: Seq<T>,
    rs: Seq<bool>,
    m: int,
)
    requires
        1 <= m <= vals.len(),
        ss.len() == vals.len() + 1,
        qs.len() == vals.len() + 1,
        rs.len() == vals.len(),
        ss[0].intended() is None,
        forall|i: int| 0 <= i < vals.len() ==> #[trigger] chain_step(ss, qs, vals, rs, i),
    ensures
        qs[m].pending() == qs[0].pending().push(ss[0].entry()),
        qs[m].pending_effects() == qs[0].pending_effects(),
        ss[m].intended() == Some(vals[m - 1]),
        ss[m].value() == ss[0].value(),
        ss[m].dependents() == ss[0].dependents(),
        ss[m].id() == ss[0].id(),
        ss[m].owner() == ss[0].owner(),
        rs[0] == (qs[0].pending().len() == 0),
        forall|i: int| 1 <= i < m ==> !#[trigger] rs[i],
    decreases m,
{
    assert(chain_step(ss, qs, vals, rs, 0));
    if m > 1 {
        lemma_sets_prefix(ss, qs, vals, rs, m - 1);
        assert(chain_step(ss, qs, vals, rs, m - 1));
    }
}

/// Any number of `set` calls on one signal between two flushes, starting with
/// nothing pending, queue the signal exactly once (a paint is requested at
/// most by the first call, when the queue was empty), and leave the last value
/// pending: the values compose in call order. One flush then applies it once.
pub proof fn lemma_sets_batch<T, E>(
    ss: Seq<Setter<T>>,
    qs: Seq<Scheduler<Update, E>>,
    vals: Seq<T>,
    rs: Seq<bool>,
)
    requires
        vals.len() > 0,
        ss.len() == vals.len() + 1,
        qs.len() == vals.len() + 1,
        rs.len() == vals.len(),
        ss[0].intended() is None,
        forall|i: int| 0 <= i < vals.len() ==> #[trigger] chain_step(ss, qs, vals, rs, i),
    ensures
        qs.last().pending() == qs[0].pending().push(ss[0].entry()),
        qs.last().pending_effects() == qs[0].pending_effects(),
        ss.last().intended() == Some(vals.last()),
        ss.last().value() == ss[0].value(),
        ss.last().dependents() == ss[0].dependents(),
        rs[0] == (qs[0].pending().len() == 0),
        forall|i: int| 1 <= i < rs.len() ==> !#[trigger] rs[i],
{
    lemma_sets_prefix(ss, qs, vals, rs, vals.len() as int);
}

} // verus!
