use vstd::prelude::*;

use crate::capacity::shrink_vec;
use crate::hydration::Attr;
use crate::scheduler::{Queued, Scheduler};

verus! {

/// A structural mutation, deferred to the next flush. The node that owns it is
/// recorded beside it in the scheduler's queue.
///
/// A replaced or removed child travels with the mutation: the mutation is its
/// last owner, and applying it hands the child back for teardown.
pub enum DomOp {
    InsertBefore { child: usize, next: Option<usize> },
    Replace { new_child: usize, old_child: DomNodeData },
    Remove { removed: DomNodeData },
    ClearChildren,
    SetText { text: String },
}

/// What waits in the scheduler's queue: a signal whose pending mutation must be
/// applied, or a structural mutation.
pub enum Update {
    Signal { signal: usize },
    Dom { op: DomOp },
}

/// The node that `op` detaches and hands back, if any.
pub open spec fn carried(op: DomOp) -> Option<DomNodeData> {
    match op {
        DomOp::Replace { old_child, .. } => Some(old_child),
        DomOp::Remove { removed } => Some(removed),
        _ => None,
    }
}

/// The children of an element after `op`, or `None` when `op` does not apply
/// to them: a node inserted twice, or an anchor or a child that is not there.
pub open spec fn children_after(children: Seq<usize>, op: DomOp) -> Option<Seq<usize>> {
    match op {
        DomOp::InsertBefore { child, next } => if children.contains(child) {
            None
        } else {
            match next {
                None => Some(children.push(child)),
                Some(n) => if children.contains(n) {
                    Some(children.insert(children.index_of(n), child))
                } else {
                    None
                },
            }
        },
        DomOp::Replace { new_child, old_child } => if children.contains(old_child.node_handle())
            && !children.contains(new_child) {
            Some(children.update(children.index_of(old_child.node_handle()), new_child))
        } else {
            None
        },
        DomOp::Remove { removed } => if children.contains(removed.node_handle()) {
            Some(children.remove(children.index_of(removed.node_handle())))
        } else {
            None
        },
        DomOp::ClearChildren => Some(Seq::empty()),
        DomOp::SetText { .. } => None,
    }
}

/// An attribute as plain text: a name and a value.
pub open spec fn attr_view(a: Attr) -> (Seq<char>, Seq<char>) {
    (a.name@, a.value@)
}

/// Whether `i` is the first position of an attribute called `name`.
pub open spec fn first_named(attrs: Seq<(Seq<char>, Seq<char>)>, name: Seq<char>, i: int) -> bool {
    &&& 0 <= i < attrs.len()
    &&& attrs[i].0 == name
    &&& forall|k: int| 0 <= k < i ==> (#[trigger] attrs[k]).0 != name
}

/// The attributes after setting `name` to `value`, or removing it for `None`.
pub open spec fn with_attr(
    attrs: Seq<(Seq<char>, Seq<char>)>,
    name: Seq<char>,
    value: Option<Seq<char>>,
) -> Seq<(Seq<char>, Seq<char>)> {
    if exists|i: int| first_named(attrs, name, i) {
        let i = choose|i: int| first_named(attrs, name, i);
        match value {
            Some(v) => attrs.update(i, (name, v)),
            None => attrs.remove(i),
        }
    } else {
        match value {
            Some(v) => attrs.push((name, v)),
            None => attrs,
        }
    }
}

proof fn lemma_first_named_unique(attrs: Seq<(Seq<char>, Seq<char>)>, name: Seq<char>, i: int, j: int)
    requires
        first_named(attrs, name, i),
        first_named(attrs, name, j),
    ensures
        i == j,
{
    if i < j {
        assert(attrs[i].0 == name);
    } else if j < i {
        assert(attrs[j].0 == name);
    }
}

/// A live element: its node, its attributes, its children (node handles, in
/// document order) and the resources that live as long as it is mounted: event
/// listener registrations and cancelable tasks.
pub struct DomElement {
    node: usize,
    namespace: Option<String>,
    tag: String,
    attrs: Vec<Attr>,
    children: Vec<usize>,
    listeners: Vec<usize>,
    tasks: Vec<usize>,
}

impl DomElement {
    pub closed spec fn handle(&self) -> usize {
        self.node
    }

    pub closed spec fn tag_name(&self) -> Seq<char> {
        self.tag@
    }

    pub closed spec fn namespace_name(&self) -> Option<Seq<char>> {
        match self.namespace {
            Some(ns) => Some(ns@),
            None => None,
        }
    }

    pub closed spec fn attributes(&self) -> Seq<(Seq<char>, Seq<char>)> {
        self.attrs@.map_values(|a: Attr| attr_view(a))
    }

    pub closed spec fn child_nodes(&self) -> Seq<usize> {
        self.children@
    }

    pub closed spec fn listener_regs(&self) -> Seq<usize> {
        self.listeners@
    }

    pub closed spec fn task_handles(&self) -> Seq<usize> {
        self.tasks@
    }

    pub open spec fn wf(&self) -> bool {
        self.child_nodes().no_duplicates()
    }

    /// A fresh element `tag`, for node `node`.
    pub fn new(node: usize, tag: &str) -> (r: Self)
        ensures
            r.wf(),
            r.handle() == node,
            r.tag_name() == tag@,
            r.namespace_name() is None,
            r.attributes() == Seq::<(Seq<char>, Seq<char>)>::empty(),
            r.child_nodes() == Seq::<usize>::empty(),
            r.listener_regs() == Seq::<usize>::empty(),
            r.task_handles() == Seq::<usize>::empty(),
    {
        let r = DomElement {
            node,
            namespace: None,
            tag: tag.to_owned(),
            attrs: Vec::new(),
            children: Vec::new(),
            listeners: Vec::new(),
            tasks: Vec::new(),
        };
        assert(r.attributes() =~= Seq::<(Seq<char>, Seq<char>)>::empty());
        r
    }

    /// A fresh element `tag` in `namespace`, for node `node`.
    pub fn new_in_namespace(node: usize, namespace: &str, tag: &str) -> (r: Self)
        ensures
            r.wf(),
            r.handle() == node,
            r.tag_name() == tag@,
            r.namespace_name() == Some(namespace@),
            r.attributes() == Seq::<(Seq<char>, Seq<char>)>::empty(),
            r.child_nodes() == Seq::<usize>::empty(),
            r.listener_regs() == Seq::<usize>::empty(),
            r.task_handles() == Seq::<usize>::empty(),
    {
        let r = DomElement {
            node,
            namespace: Some(namespace.to_owned()),
            tag: tag.to_owned(),
            attrs: Vec::new(),
            children: Vec::new(),
            listeners: Vec::new(),
            tasks: Vec::new(),
        };
        assert(r.attributes() =~= Seq::<(Seq<char>, Seq<char>)>::empty());
        r
    }

    /// The element's node.
    pub fn node(&self) -> (r: usize)
        ensures
            r == self.handle(),
    {
        self.node
    }

    /// The children, in document order.
    pub fn children(&self) -> (r: &Vec<usize>)
        ensures
            r@ == self.child_nodes(),
    {
        &self.children
    }

    /// Release unused capacity of the element's lists.
    pub fn shrink_to_fit(&mut self)
        ensures
            final(self).child_nodes() == old(self).child_nodes(),
            final(self).attributes() == old(self).attributes(),
            final(self).listener_regs() == old(self).listener_regs(),
            final(self).task_handles() == old(self).task_handles(),
            final(self).handle() == old(self).handle(),
            final(self).wf() == old(self).wf(),
    {
        shrink_vec(&mut self.children);
        shrink_vec(&mut self.attrs);
        shrink_vec(&mut self.listeners);
        shrink_vec(&mut self.tasks);
    }

    /// Tie task `task` to the element's lifetime.
    pub fn spawn_future(&mut self, task: usize)
        ensures
            final(self).task_handles() == old(self).task_handles().push(task),
            final(self).listener_regs() == old(self).listener_regs(),
            final(self).child_nodes() == old(self).child_nodes(),
            final(self).attributes() == old(self).attributes(),
            final(self).handle() == old(self).handle(),
    {
        self.tasks.push(task);
    }

    /// Tie the event listener registration `listener` to the element's
    /// lifetime.
    pub fn on(&mut self, listener: usize)
        ensures
            final(self).listener_regs() == old(self).listener_regs().push(listener),
            final(self).task_handles() == old(self).task_handles(),
            final(self).child_nodes() == old(self).child_nodes(),
            final(self).attributes() == old(self).attributes(),
            final(self).handle() == old(self).handle(),
    {
        self.listeners.push(listener);
    }

    /// Take over the resources of `child`, so that tearing `self` down releases
    /// them too.
    pub fn store_child(&mut self, child: DomElement)
        ensures
            final(self).listener_regs() == old(self).listener_regs() + child.listener_regs(),
            final(self).task_handles() == old(self).task_handles() + child.task_handles(),
            final(self).child_nodes() == old(self).child_nodes(),
            final(self).attributes() == old(self).attributes(),
            final(self).handle() == old(self).handle(),
    {
        let mut child = child;
        self.listeners.append(&mut child.listeners);
        self.tasks.append(&mut child.tasks);
    }

    /// Release everything the element holds: returns the listener
    /// registrations to unregister and the tasks to cancel, each exactly once.
    pub fn teardown(self) -> (r: (Vec<usize>, Vec<usize>))
        ensures
            r.0@ == self.listener_regs(),
            r.1@ == self.task_handles(),
    {
        (self.listeners, self.tasks)
    }

    /// Apply a structural mutation to the children now. Returns `false`, and
    /// changes nothing, when it does not apply (see [`children_after`]).
    pub fn apply_now(&mut self, op: &DomOp) -> (r: bool)
        requires
            old(self).wf(),
        ensures
            final(self).wf(),
            r == children_after(old(self).child_nodes(), *op) is Some,
            r ==> final(self).child_nodes() == children_after(old(self).child_nodes(), *op)->0,
            !r ==> final(self).child_nodes() == old(self).child_nodes(),
            final(self).attributes() == old(self).attributes(),
            final(self).listener_regs() == old(self).listener_regs(),
            final(self).task_handles() == old(self).task_handles(),
            final(self).handle() == old(self).handle(),
    {
        let ghost c0 = self.children@;
        match op {
            DomOp::InsertBefore { child, next } => {
                if position(&self.children, *child).is_some() {
                    return false;
                }
                match next {
                    None => {
                        proof {
                            lemma_push_no_dup(c0, *child);
                        }
                        self.children.push(*child);
                        true
                    },
                    Some(n) => match position(&self.children, *n) {
                        Some(p) => {
                            proof {
                                lemma_index_of_at(c0, p as int);
                                lemma_insert_no_dup(c0, p as int, *child);
                            }
                            self.children.insert(p, *child);
                            true
                        },
                        None => false,
                    },
                }
            },
            DomOp::Replace { new_child, old_child } => {
                if position(&self.children, *new_child).is_some() {
                    return false;
                }
                match position(&self.children, old_child.dom_node()) {
                    Some(p) => {
                        proof {
                            lemma_index_of_at(c0, p as int);
                            lemma_update_no_dup(c0, p as int, *new_child);
                        }
                        self.children.set(p, *new_child);
                        true
                    },
                    None => false,
                }
            },
            DomOp::Remove { removed } => match position(&self.children, removed.dom_node()) {
                Some(p) => {
                    proof {
                        lemma_index_of_at(c0, p as int);
                        lemma_remove_no_dup(c0, p as int);
                    }
                    self.children.remove(p);
                    true
                },
                None => false,
            },
            DomOp::ClearChildren => {
                self.children = Vec::new();
                true
            },
            DomOp::SetText { .. } => false,
        }
    }

    /// Apply a deferred mutation, as [`apply_now`](Self::apply_now) does, and
    /// hand back the child it carried, unchanged, for teardown.
    pub fn apply(&mut self, op: DomOp) -> (r: (bool, Option<DomNodeData>))
        requires
            old(self).wf(),
        ensures
            final(self).wf(),
            r.0 == children_after(old(self).child_nodes(), op) is Some,
            r.0 ==> final(self).child_nodes() == children_after(old(self).child_nodes(), op)->0,
            !r.0 ==> final(self).child_nodes() == old(self).child_nodes(),
            r.1 == carried(op),
            final(self).attributes() == old(self).attributes(),
            final(self).listener_regs() == old(self).listener_regs(),
            final(self).task_handles() == old(self).task_handles(),
            final(self).handle() == old(self).handle(),
    {
        let applied = self.apply_now(&op);
        let detached = match op {
            DomOp::Replace { old_child, .. } => Some(old_child),
            DomOp::Remove { removed } => Some(removed),
            _ => None,
        };
        (applied, detached)
    }

    /// Append `child` now.
    pub fn append_child_now(&mut self, child: usize)
        requires
            old(self).wf(),
            !old(self).child_nodes().contains(child),
        ensures
            final(self).wf(),
            final(self).child_nodes() == old(self).child_nodes().push(child),
            final(self).attributes() == old(self).attributes(),
            final(self).listener_regs() == old(self).listener_regs(),
            final(self).task_handles() == old(self).task_handles(),
            final(self).handle() == old(self).handle(),
    {
        let op = DomOp::InsertBefore { child, next: None };
        self.apply_now(&op);
    }

    /// Insert `child` now, right before `next_child`, or last without one.
    pub fn insert_child_before_now(&mut self, child: usize, next_child: Option<usize>)
        requires
            old(self).wf(),
            !old(self).child_nodes().contains(child),
            next_child matches Some(n) ==> old(self).child_nodes().contains(n),
        ensures
            final(self).wf(),
            final(self).child_nodes() == children_after(
                old(self).child_nodes(),
                DomOp::InsertBefore { child, next: next_child },
            )->0,
            final(self).attributes() == old(self).attributes(),
            final(self).listener_regs() == old(self).listener_regs(),
            final(self).task_handles() == old(self).task_handles(),
            final(self).handle() == old(self).handle(),
    {
        let op = DomOp::InsertBefore { child, next: next_child };
        self.apply_now(&op);
    }

    /// Remove `child` now, and hand it back for teardown.
    pub fn remove_child_now(&mut self, child: DomNodeData) -> (r: Option<DomNodeData>)
        requires
            old(self).wf(),
            old(self).child_nodes().contains(child.node_handle()),
        ensures
            final(self).wf(),
            final(self).child_nodes() == old(self).child_nodes().remove(
                old(self).child_nodes().index_of(child.node_handle()),
            ),
            r == Some(child),
            final(self).attributes() == old(self).attributes(),
            final(self).listener_regs() == old(self).listener_regs(),
            final(self).task_handles() == old(self).task_handles(),
            final(self).handle() == old(self).handle(),
    {
        let op = DomOp::Remove { removed: child };
        let (_, detached) = self.apply(op);
        detached
    }

    /// Queue the insertion of `child` before `next_child` for the next flush.
    /// Returns `true` when a paint opportunity must be requested.
    pub fn insert_child_before<E>(
        &self,
        scheduler: &mut Scheduler<Update, E>,
        child: usize,
        next_child: Option<usize>,
    ) -> (r: bool)
        ensures
            r == (old(scheduler).pending().len() == 0),
            final(scheduler).pending() == old(scheduler).pending().push(
                Queued {
                    owner: self.handle(),
                    update: Update::Dom { op: DomOp::InsertBefore { child, next: next_child } },
                },
            ),
            final(scheduler).pending_effects() == old(scheduler).pending_effects(),
    {
        scheduler.queue_update(
            self.node,
            Update::Dom { op: DomOp::InsertBefore { child, next: next_child } },
        )
    }

    /// Queue the replacement of `old_child` by `new_child` for the next flush.
    /// The queued mutation owns `old_child` until the flush hands it back.
    pub fn replace_child<E>(
        &self,
        scheduler: &mut Scheduler<Update, E>,
        new_child: usize,
        old_child: DomNodeData,
    ) -> (r: bool)
        ensures
            r == (old(scheduler).pending().len() == 0),
            final(scheduler).pending() == old(scheduler).pending().push(
                Queued {
                    owner: self.handle(),
                    update: Update::Dom { op: DomOp::Replace { new_child, old_child } },
                },
            ),
            final(scheduler).pending_effects() == old(scheduler).pending_effects(),
    {
        scheduler.queue_update(self.node, Update::Dom { op: DomOp::Replace { new_child, old_child } })
    }

    /// Queue the removal of `child` for the next flush. The queued mutation
    /// owns `child` until the flush hands it back.
    pub fn remove_child<E>(&self, scheduler: &mut Scheduler<Update, E>, child: DomNodeData) -> (r:
        bool)
        ensures
            r == (old(scheduler).pending().len() == 0),
            final(scheduler).pending() == old(scheduler).pending().push(
                Queued {
                    owner: self.handle(),
                    update: Update::Dom { op: DomOp::Remove { removed: child } },
                },
            ),
            final(scheduler).pending_effects() == old(scheduler).pending_effects(),
    {
        scheduler.queue_update(self.node, Update::Dom { op: DomOp::Remove { removed: child } })
    }

    /// Queue the removal of every child for the next flush.
    pub fn clear_children<E>(&self, scheduler: &mut Scheduler<Update, E>) -> (r: bool)
        ensures
            r == (old(scheduler).pending().len() == 0),
            final(scheduler).pending() == old(scheduler).pending().push(
                Queued { owner: self.handle(), update: Update::Dom { op: DomOp::ClearChildren } },
            ),
            final(scheduler).pending_effects() == old(scheduler).pending_effects(),
    {
        scheduler.queue_update(self.node, Update::Dom { op: DomOp::ClearChildren })
    }

    /// Set attribute `name` to `value`, or remove it for `None`.
    pub fn attribute(&mut self, name: &str, value: Option<&str>)
        ensures
            final(self).attributes() == with_attr(
                old(self).attributes(),
                name@,
                match value {
                    Some(v) => Some(v@),
                    None => None,
                },
            ),
            final(self).child_nodes() == old(self).child_nodes(),
            final(self).listener_regs() == old(self).listener_regs(),
            final(self).task_handles() == old(self).task_handles(),
            final(self).handle() == old(self).handle(),
    {
        let ghost a0 = self.attributes();
        let key = name.to_owned();
        let mut i: usize = 0;
        while i < self.attrs.len()
            invariant
                *self == *old(self),
                key@ == name@,
                i <= self.attrs@.len(),
                a0 == self.attributes(),
                a0 == self.attrs@.map_values(|a: Attr| attr_view(a)),
                forall|k: int| 0 <= k < i ==> (#[trigger] a0[k]).0 != name@,
            decreases self.attrs.len() - i,
        {
            assert(a0[i as int] == attr_view(self.attrs@[i as int]));
            if self.attrs[i].name == key {
                proof {
                    assert(first_named(a0, name@, i as int));
                    let c = choose|c: int| first_named(a0, name@, c);
                    lemma_first_named_unique(a0, name@, i as int, c);
                }
                match value {
                    Some(v) => {
                        let a = Attr { name: name.to_owned(), value: v.to_owned() };
                        self.attrs.set(i, a);
                        proof {
                            assert(self.attributes() =~= a0.update(i as int, (name@, v@)));
                        }
                    },
                    None => {
                        self.attrs.remove(i);
                        proof {
                            assert(self.attributes() =~= a0.remove(i as int));
                        }
                    },
                }
                return;
            }
            i = i + 1;
        }
        match value {
            Some(v) => {
                let a = Attr { name: name.to_owned(), value: v.to_owned() };
                self.attrs.push(a);
                proof {
                    assert(self.attributes() =~= a0.push((name@, v@)));
                }
            },
            None => {},
        }
    }
}

/// The position of `n` in `v`.
pub(crate) fn position(v: &Vec<usize>, n: usize) -> (r: Option<usize>)
    ensures
        r is None <==> !v@.contains(n),
        r matches Some(p) ==> p < v@.len() && v@[p as int] == n,
{
    let mut i: usize = 0;
    while i < v.len()
        invariant
            i <= v@.len(),
            forall|k: int| 0 <= k < i ==> v@[k] != n,
        decreases v.len() - i,
    {
        if v[i] == n {
            return Some(i);
        }
        i = i + 1;
    }
    None
}

pub(crate) proof fn lemma_index_of_at(s: Seq<usize>, p: int)
    requires
        s.no_duplicates(),
        0 <= p < s.len(),
    ensures
        s.index_of(s[p]) == p,
{
    assert(s.contains(s[p]));
}

proof fn lemma_push_no_dup(s: Seq<usize>, c: usize)
    requires
        s.no_duplicates(),
        !s.contains(c),
    ensures
        s.push(c).no_duplicates(),
{
    assert forall|a: int, b: int| 0 <= a < b < s.len() + 1 implies s.push(c)[a] != s.push(c)[b] by {
        if b == s.len() {
            assert(s.contains(s[a]));
        }
    }
}

proof fn lemma_insert_no_dup(s: Seq<usize>, p: int, c: usize)
    requires
        s.no_duplicates(),
        !s.contains(c),
        0 <= p <= s.len(),
    ensures
        s.insert(p, c).no_duplicates(),
{
    let t = s.insert(p, c);
    assert forall|a: int, b: int| 0 <= a < b < t.len() implies t[a] != t[b] by {
        if a < p && b == p {
            assert(s.contains(s[a]));
        } else if a == p {
            assert(t[b] == s[b - 1]);
            assert(s.contains(s[b - 1]));
        } else if a < p && b > p {
            assert(t[b] == s[b - 1]);
        } else if a > p {
            assert(t[a] == s[a - 1]);
            assert(t[b] == s[b - 1]);
        }
    }
}

proof fn lemma_update_no_dup(s: Seq<usize>, p: int, c: usize)
    requires
        s.no_duplicates(),
        !s.contains(c),
        0 <= p < s.len(),
    ensures
        s.update(p, c).no_duplicates(),
{
    let t = s.update(p, c);
    assert forall|a: int, b: int| 0 <= a < b < t.len() implies t[a] != t[b] by {
        if a == p {
            assert(s.contains(s[b]));
        } else if b == p {
            assert(s.contains(s[a]));
        }
    }
}

proof fn lemma_remove_no_dup(s: Seq<usize>, p: int)
    requires
        s.no_duplicates(),
        0 <= p < s.len(),
    ensures
        s.remove(p).no_duplicates(),
{
    let t = s.remove(p);
    assert forall|a: int, b: int| 0 <= a < b < t.len() implies t[a] != t[b] by {
        let a0 = if a < p { a } else { a + 1 };
        let b0 = if b < p { b } else { b + 1 };
        assert(t[a] == s[a0]);
        assert(t[b] == s[b0]);
    }
}

/// A live text node.
pub struct DomText {
    node: usize,
    text: String,
}

impl DomText {
    pub closed spec fn handle(&self) -> usize {
        self.node
    }

    pub closed spec fn content(&self) -> Seq<char> {
        self.text@
    }

    /// A fresh text node holding `text`, for node `node`.
    pub fn new(node: usize, text: &str) -> (r: Self)
        ensures
            r.handle() == node,
            r.content() == text@,
    {
        DomText { node, text: text.to_owned() }
    }

    /// The text node's node.
    pub fn node(&self) -> (r: usize)
        ensures
            r == self.handle(),
    {
        self.node
    }

    /// The text it holds.
    pub fn text(&self) -> (r: &String)
        ensures
            r@ == self.content(),
    {
        &self.text
    }

    /// Replace the text now.
    pub fn set_text_now(&mut self, text: String)
        ensures
            final(self).content() == text@,
            final(self).handle() == old(self).handle(),
    {
        self.text = text;
    }

    /// Apply a deferred mutation to the text node: a text replacement sets
    /// the content; any other mutation does not apply to a text node. Returns
    /// whether it applied, and hands back the node the mutation carried, for
    /// teardown.
    pub fn apply(&mut self, op: DomOp) -> (r: (bool, Option<DomNodeData>))
        ensures
            r.0 == op is SetText,
            op matches DomOp::SetText { text } ==> final(self).content() == text@,
            !r.0 ==> final(self).content() == old(self).content(),
            r.1 == carried(op),
            final(self).handle() == old(self).handle(),
    {
        match op {
            DomOp::SetText { text } => {
                self.text = text;
                (true, None)
            },
            DomOp::Replace { old_child, .. } => (false, Some(old_child)),
            DomOp::Remove { removed } => (false, Some(removed)),
            _ => (false, None),
        }
    }

    /// Queue the replacement of the text for the next flush.
    /// Returns `true` when a paint opportunity must be requested.
    pub fn set_text<E>(&self, scheduler: &mut Scheduler<Update, E>, text: String) -> (r: bool)
        ensures
            r == (old(scheduler).pending().len() == 0),
            final(scheduler).pending() == old(scheduler).pending().push(
                Queued { owner: self.handle(), update: Update::Dom { op: DomOp::SetText { text } } },
            ),
            final(scheduler).pending_effects() == old(scheduler).pending_effects(),
    {
        scheduler.queue_update(self.node, Update::Dom { op: DomOp::SetText { text } })
    }
}

/// An element or a text node, for storing either without knowing which.
pub enum DomNodeData {
    Element(DomElement),
    Text(DomText),
}

impl DomNodeData {
    /// Release everything the node holds: a text node holds nothing.
    pub fn teardown(self) -> (r: (Vec<usize>, Vec<usize>))
        ensures
            self matches DomNodeData::Element(e) ==> r.0@ == e.listener_regs() && r.1@
                == e.task_handles(),
            self is Text ==> r.0@.len() == 0 && r.1@.len() == 0,
    {
        match self {
            DomNodeData::Element(e) => e.teardown(),
            DomNodeData::Text(_) => (Vec::new(), Vec::new()),
        }
    }
}

/// A node of the live tree.
pub trait DomNode {
    spec fn node_handle(&self) -> usize;

    /// The node's handle.
    fn dom_node(&self) -> (r: usize)
        ensures
            r == self.node_handle(),
    ;
}

impl DomNode for DomElement {
    open spec fn node_handle(&self) -> usize {
        self.handle()
    }

    fn dom_node(&self) -> (r: usize) {
        self.node()
    }
}

impl DomNode for DomText {
    open spec fn node_handle(&self) -> usize {
        self.handle()
    }

    fn dom_node(&self) -> (r: usize) {
        self.node()
    }
}

impl DomNode for DomNodeData {
    open spec fn node_handle(&self) -> usize {
        match self {
            DomNodeData::Element(e) => e.handle(),
            DomNodeData::Text(t) => t.handle(),
        }
    }

    fn dom_node(&self) -> (r: usize) {
        match self {
            DomNodeData::Element(e) => e.node(),
            DomNodeData::Text(t) => t.node(),
        }
    }
}

/// Whether a node is still waiting to be created. Every node here is created
/// as soon as it is built, so none is.
pub trait Thunk {
    fn is_thunk(&self) -> (r: bool)
        ensures
            !r,
    ;
}

impl Thunk for DomElement {
    fn is_thunk(&self) -> (r: bool) {
        false
    }
}

impl Thunk for DomText {
    fn is_thunk(&self) -> (r: bool) {
        false
    }
}

impl Thunk for DomNodeData {
    fn is_thunk(&self) -> (r: bool) {
        false
    }
}

/// Tearing down an element that took over a child's resources releases both
/// sets: every listener registration is unregistered and every task cancelled,
/// exactly once, and nothing stays registered.
pub proof fn lemma_teardown_releases_all(
    parent: DomElement,
    child: DomElement,
    merged: DomElement,
    released: (Seq<usize>, Seq<usize>),
)
    requires
        merged.listener_regs() == parent.listener_regs() + child.listener_regs(),
        merged.task_handles() == parent.task_handles() + child.task_handles(),
        released.0 == merged.listener_regs(),
        released.1 == merged.task_handles(),
    ensures
        released.0.len() == parent.listener_regs().len() + child.listener_regs().len(),
        released.1.len() == parent.task_handles().len() + child.task_handles().len(),
        forall|r: usize|
            #[trigger] released.0.contains(r) <==> parent.listener_regs().contains(r)
                || child.listener_regs().contains(r),
        forall|t: usize|
            #[trigger] released.1.contains(t) <==> parent.task_handles().contains(t)
                || child.task_handles().contains(t),
{
    assert forall|r: usize| #[trigger] released.0.contains(r) <==> parent.listener_regs().contains(r)
        || child.listener_regs().contains(r) by {
        let a = parent.listener_regs();
        let b = child.listener_regs();
        if a.contains(r) {
            let i = choose|i: int| 0 <= i < a.len() && a[i] == r;
            assert(released.0[i] == r);
        }
        if b.contains(r) {
            let i = choose|i: int| 0 <= i < b.len() && b[i] == r;
            assert(released.0[a.len() + i] == r);
        }
        if released.0.contains(r) {
            let i = choose|i: int| 0 <= i < released.0.len() && released.0[i] == r;
            if i < a.len() {
                assert(a[i] == r);
            } else {
                assert(b[i - a.len()] == r);
            }
        }
    }
    assert forall|t: usize| #[trigger] released.1.contains(t) <==> parent.task_handles().contains(t)
        || child.task_handles().contains(t) by {
        let a = parent.task_handles();
        let b = child.task_handles();
        if a.contains(t) {
            let i = choose|i: int| 0 <= i < a.len() && a[i] == t;
            assert(released.1[i] == t);
        }
        if b.contains(t) {
            let i = choose|i: int| 0 <= i < b.len() && b[i] == t;
            assert(released.1[a.len() + i] == t);
        }
        if released.1.contains(t) {
            let i = choose|i: int| 0 <= i < released.1.len() && released.1[i] == t;
            if i < a.len() {
                assert(a[i] == t);
            } else {
                assert(b[i - a.len()] == t);
            }
        }
    }
}

} // verus!
