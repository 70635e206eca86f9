use vstd::prelude::*;

verus! {

/// One node of the live tree, as far as scheduling needs it: where it hangs and
/// whether it still exists.
#[derive(Debug, Clone, Copy, PartialEq, Eq)]
pub struct NodeEntry {
    pub parent: Option<usize>,
    pub live: bool,
}

/// The depth of node `n`, following at most `fuel` parent links.
///
/// `None` when the node is unknown, when it or one of its ancestors has been
/// discarded, or when the chain of parents is longer than `fuel`.
pub open spec fn depth_within(nodes: Seq<NodeEntry>, n: int, fuel: nat) -> Option<nat>
    decreases fuel,
{
    if n < 0 || n >= nodes.len() || !nodes[n].live || fuel == 0 {
        None
    } else {
        match nodes[n].parent {
            None => Some(0),
            Some(p) => match depth_within(nodes, p as int, (fuel - 1) as nat) {
                Some(d) => Some(d + 1),
                None => None,
            },
        }
    }
}

/// The depth of a live node: its number of ancestors. `None` when the node has
/// expired.
pub open spec fn node_depth(nodes: Seq<NodeEntry>, n: int) -> Option<nat> {
    depth_within(nodes, n, nodes.len())
}

/// The `k`-th ancestor of node `n` (`n` itself for `k == 0`).
pub open spec fn ancestor(nodes: Seq<NodeEntry>, n: int, k: nat) -> Option<int>
    decreases k,
{
    if k == 0 {
        Some(n)
    } else {
        match ancestor(nodes, n, (k - 1) as nat) {
            Some(m) => if 0 <= m < nodes.len() {
                match nodes[m].parent {
                    Some(p) => Some(p as int),
                    None => None,
                }
            } else {
                None
            },
            None => None,
        }
    }
}

pub proof fn lemma_depth_below_fuel(nodes: Seq<NodeEntry>, n: int, fuel: nat)
    ensures
        depth_within(nodes, n, fuel) matches Some(d) ==> d < fuel,
    decreases fuel,
{
    if fuel > 0 && 0 <= n < nodes.len() {
        if let Some(p) = nodes[n].parent {
            lemma_depth_below_fuel(nodes, p as int, (fuel - 1) as nat);
        }
    }
}

pub proof fn lemma_depth_more_fuel(nodes: Seq<NodeEntry>, n: int, fuel: nat, more: nat)
    requires
        depth_within(nodes, n, fuel) is Some,
        fuel <= more,
    ensures
        depth_within(nodes, n, more) == depth_within(nodes, n, fuel),
    decreases fuel,
{
    if let Some(p) = nodes[n].parent {
        lemma_depth_more_fuel(nodes, p as int, (fuel - 1) as nat, (more - 1) as nat);
    }
}

/// A live node whose parent chain ends lies one level below its parent.
pub proof fn lemma_parent_depth(nodes: Seq<NodeEntry>, n: int, p: usize)
    requires
        0 <= n < nodes.len(),
        nodes[n].parent == Some(p),
        node_depth(nodes, n) is Some,
    ensures
        node_depth(nodes, p as int) is Some,
        node_depth(nodes, n)->0 == node_depth(nodes, p as int)->0 + 1,
{
    let f = nodes.len();
    assert(depth_within(nodes, p as int, (f - 1) as nat) is Some);
    lemma_depth_more_fuel(nodes, p as int, (f - 1) as nat, f);
}

/// Every ancestor of a live node is live and lies strictly above it.
pub proof fn lemma_ancestor_depth(nodes: Seq<NodeEntry>, n: int, k: nat)
    requires
        node_depth(nodes, n) is Some,
        ancestor(nodes, n, k) is Some,
    ensures
        node_depth(nodes, ancestor(nodes, n, k)->0) is Some,
        node_depth(nodes, ancestor(nodes, n, k)->0)->0 + k == node_depth(nodes, n)->0,
    decreases k,
{
    if k > 0 {
        let m = ancestor(nodes, n, (k - 1) as nat)->0;
        lemma_ancestor_depth(nodes, n, (k - 1) as nat);
        lemma_parent_depth(nodes, m, nodes[m].parent->0);
    }
}

/// The shape of the live tree: each node's parent and whether it still exists.
///
/// Nodes are never reused: a discarded node, and everything below it, stays
/// expired.
pub struct LiveTree {
    nodes: Vec<NodeEntry>,
}

impl View for LiveTree {
    type V = Seq<NodeEntry>;

    closed spec fn view(&self) -> Seq<NodeEntry> {
        self.nodes@
    }
}

impl LiveTree {
    /// An empty tree.
    pub fn new() -> (r: Self)
        ensures
            r@ == Seq::<NodeEntry>::empty(),
    {
        LiveTree { nodes: Vec::new() }
    }

    /// The number of nodes ever created.
    pub fn len(&self) -> (r: usize)
        ensures
            r == self@.len(),
    {
        self.nodes.len()
    }

    /// Create a live node under `parent` (a root for `None`) and return its handle.
    pub fn add_node(&mut self, parent: Option<usize>) -> (r: usize)
        requires
            old(self)@.len() < usize::MAX,
        ensures
            r == old(self)@.len(),
            final(self)@ == old(self)@.push(NodeEntry { parent, live: true }),
    {
        let r = self.nodes.len();
        self.nodes.push(NodeEntry { parent, live: true });
        r
    }

    /// Move `node` under `parent` (make it a root for `None`).
    pub fn set_parent(&mut self, node: usize, parent: Option<usize>)
        requires
            node < old(self)@.len(),
        ensures
            final(self)@ == old(self)@.update(
                node as int,
                NodeEntry { parent, live: old(self)@[node as int].live },
            ),
    {
        let live = self.nodes[node].live;
        self.nodes.set(node, NodeEntry { parent, live });
    }

    /// Discard `node`: it and every node below it expire.
    pub fn discard(&mut self, node: usize)
        requires
            node < old(self)@.len(),
        ensures
            final(self)@ == old(self)@.update(
                node as int,
                NodeEntry { parent: old(self)@[node as int].parent, live: false },
            ),
    {
        let parent = self.nodes[node].parent;
        self.nodes.set(node, NodeEntry { parent, live: false });
    }

    /// The parent of `node`.
    pub fn parent(&self, node: usize) -> (r: Option<usize>)
        requires
            node < self@.len(),
        ensures
            r == self@[node as int].parent,
    {
        self.nodes[node].parent
    }

    /// Whether `node` still exists: neither it nor any of its ancestors was
    /// discarded. An update of an expired node is dropped.
    pub fn is_live(&self, node: usize) -> (r: bool)
        ensures
            r == node_depth(self@, node as int) is Some,
    {
        self.depth(node).is_some()
    }

    /// The depth of `node`, or `None` when it has expired.
    pub fn depth(&self, node: usize) -> (r: Option<usize>)
        ensures
            r is Some <==> node_depth(self@, node as int) is Some,
            r is Some ==> r->0 == node_depth(self@, node as int)->0,
    {
        let n = self.nodes.len();
        let mut cur: usize = node;
        let mut fuel: usize = n;
        let mut acc: usize = 0;
        loop
            invariant
                n == self@.len(),
                acc + fuel == n,
                depth_within(self@, node as int, n as nat) == (match depth_within(
                    self@,
                    cur as int,
                    fuel as nat,
                ) {
                    Some(d) => Some((d + acc) as nat),
                    None => None::<nat>,
                }),
            decreases fuel,
        {
            if cur >= n || !self.nodes[cur].live || fuel == 0 {
                return None;
            }
            match self.nodes[cur].parent {
                None => {
                    return Some(acc);
                },
                Some(p) => {
                    cur = p;
                    fuel = fuel - 1;
                    acc = acc + 1;
                },
            }
        }
    }
}

} // verus!
