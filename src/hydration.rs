use vstd::prelude::*;

use crate::stats::{Diff, HydrationStats};

verus! {

/// An attribute: a name and its value.
pub struct Attr {
    pub name: String,
    pub value: String,
}

/// A node of a tree: either what the application generates, or the markup that
/// already exists in the document.
pub enum VNode {
    Element { tag: String, attrs: Vec<Attr>, children: Vec<VNode> },
    Text { text: String },
}

/// Unicode `White_Space`: the characters that `char::is_whitespace` accepts.
pub open spec fn is_ws(c: char) -> bool {
    ('\u{9}' <= c <= '\u{d}') || c == ' ' || c == '\u{85}' || c == '\u{a0}' || c == '\u{1680}'
        || ('\u{2000}' <= c <= '\u{200a}') || c == '\u{2028}' || c == '\u{2029}' || c
        == '\u{202f}' || c == '\u{205f}' || c == '\u{3000}'
}

/// A text made of whitespace alone (the empty text included).
pub open spec fn blank(s: Seq<char>) -> bool {
    forall|i: int| 0 <= i < s.len() ==> is_ws(#[trigger] s[i])
}

/// The prefix of attribute names that belong to the runtime itself.
pub open spec fn reserved_prefix() -> Seq<char> {
    seq!['d', 'a', 't', 'a', '-', 's', 'i', 'l', 'k', 'e', 'n', 'w', 'e', 'b']
}

/// Attributes whose name carries the reserved prefix are never touched by
/// hydration.
pub open spec fn reserved(name: Seq<char>) -> bool {
    name.len() >= reserved_prefix().len() && name.subrange(0, reserved_prefix().len() as int)
        == reserved_prefix()
}

/// The value of the first attribute called `name`.
pub open spec fn lookup(attrs: Seq<Attr>, name: Seq<char>) -> Option<Seq<char>>
    decreases attrs.len(),
{
    if attrs.len() == 0 {
        None
    } else if attrs[0].name@ == name {
        Some(attrs[0].value@)
    } else {
        lookup(attrs.drop_first(), name)
    }
}

/// The number of generated attributes that the existing element lacks, or has
/// with another value.
pub open spec fn attrs_to_set(gen: Seq<Attr>, existing: Seq<Attr>) -> nat
    decreases gen.len(),
{
    if gen.len() == 0 {
        0
    } else {
        let a = gen.last();
        attrs_to_set(gen.drop_last(), existing) + if !reserved(a.name@) && lookup(existing, a.name@)
            != Some(a.value@) {
            1nat
        } else {
            0nat
        }
    }
}

/// The number of existing attributes that the generated element does not have.
pub open spec fn attrs_to_remove(gen: Seq<Attr>, existing: Seq<Attr>) -> nat
    decreases existing.len(),
{
    if existing.len() == 0 {
        0
    } else {
        let a = existing.last();
        attrs_to_remove(gen, existing.drop_last()) + if !reserved(a.name@) && lookup(
            gen,
            a.name@,
        ) is None {
            1nat
        } else {
            0nat
        }
    }
}

pub open spec fn attr_diff(gen: Seq<Attr>, existing: Seq<Attr>) -> Diff {
    Diff {
        attrs_set: attrs_to_set(gen, existing),
        attrs_removed: attrs_to_remove(gen, existing),
        ..Diff::zero()
    }
}

/// How the removal of an existing node is counted.
pub open spec fn removal(e: VNode) -> Diff {
    match e {
        VNode::Text { text } => if blank(text@) {
            Diff::one_empty_text()
        } else {
            Diff::one_removed()
        },
        VNode::Element { .. } => Diff::one_removed(),
    }
}

/// Whether an existing node can be reused for a generated one.
pub open spec fn matches(g: VNode, e: VNode) -> bool {
    match (g, e) {
        (VNode::Element { tag: gt, .. }, VNode::Element { tag: et, .. }) => gt@ == et@,
        (VNode::Text { .. }, VNode::Text { .. }) => true,
        _ => false,
    }
}

/// What hydrating generated node `g` against existing node `e` counts.
///
/// A match reuses `e`, reconciles its attributes and hydrates the children in
/// lock-step. A mismatch discards `e` and creates `g`.
pub open spec fn node_diff(g: VNode, e: VNode) -> Diff
    decreases g,
{
    if matches(g, e) {
        match (g, e) {
            (
                VNode::Element { attrs: ga, children: gc, .. },
                VNode::Element { attrs: ea, children: ec, .. },
            ) => attr_diff(ga@, ea@).plus(children_diff(gc@, ec@)),
            _ => Diff::zero(),
        }
    } else {
        removal(e).plus(Diff::one_added())
    }
}

/// The first `n` pairs of generated and existing children.
pub open spec fn pairs_diff(gs: Seq<VNode>, es: Seq<VNode>, n: nat) -> Diff
    decreases gs, n,
{
    if n == 0 || n > gs.len() || n > es.len() {
        Diff::zero()
    } else {
        pairs_diff(gs, es, (n - 1) as nat).plus(node_diff(gs[n - 1], es[n - 1]))
    }
}

/// The removal of each existing node of `es`.
pub open spec fn removals(es: Seq<VNode>) -> Diff
    decreases es.len(),
{
    if es.len() == 0 {
        Diff::zero()
    } else {
        removals(es.drop_last()).plus(removal(es.last()))
    }
}

/// Hydrating children in lock-step: pairs first, then the generated nodes left
/// over are created, and the existing nodes left over are discarded.
pub open spec fn children_diff(gs: Seq<VNode>, es: Seq<VNode>) -> Diff
    decreases gs,
{
    let n = if gs.len() <= es.len() {
        gs.len()
    } else {
        es.len()
    };
    pairs_diff(gs, es, n).plus(
        Diff { added: (gs.len() - n) as nat, ..Diff::zero() },
    ).plus(removals(es.subrange(n as int, es.len() as int)))
}

fn is_ws_char(c: char) -> (r: bool)
    ensures
        r == is_ws(c),
{
    ('\u{9}' <= c && c <= '\u{d}') || c == ' ' || c == '\u{85}' || c == '\u{a0}' || c == '\u{1680}'
        || ('\u{2000}' <= c && c <= '\u{200a}') || c == '\u{2028}' || c == '\u{2029}' || c
        == '\u{202f}' || c == '\u{205f}' || c == '\u{3000}'
}

/// Whether `s` holds whitespace alone.
pub fn is_blank(s: &String) -> (r: bool)
    ensures
        r == blank(s@),
{
    let mut r = true;
    for c in it: s.as_str().chars()
        invariant
            it.seq() == s@,
            r == (forall|i: int| 0 <= i < it.index() ==> is_ws(#[trigger] s@[i])),
    {
        if !is_ws_char(c) {
            r = false;
        }
    }
    r
}

/// Whether an attribute name carries the reserved prefix.
pub fn is_reserved(name: &String) -> (r: bool)
    ensures
        r == reserved(name@),
{
    let prefix: [char; 14] = ['d', 'a', 't', 'a', '-', 's', 'i', 'l', 'k', 'e', 'n', 'w', 'e', 'b'];
    assert(prefix@ == reserved_prefix());
    let mut r = true;
    let mut k: usize = 0;
    for c in it: name.as_str().chars()
        invariant
            it.seq() == name@,
            k == (if it.index() < 14 {
                it.index()
            } else {
                14
            }),
            r == (forall|i: int| 0 <= i < k ==> name@[i] == #[trigger] prefix@[i]),
    {
        if k < 14 {
            if c != prefix[k] {
                r = false;
            }
            k = k + 1;
        }
    }
    if k < 14 {
        return false;
    }
    assert(r ==> name@.subrange(0, 14) == reserved_prefix());
    r
}

/// The index of the first attribute called `name`.
fn find_attr(attrs: &Vec<Attr>, name: &String) -> (r: Option<usize>)
    ensures
        r is None <==> lookup(attrs@, name@) is None,
        r matches Some(i) ==> i < attrs@.len() && lookup(attrs@, name@) == Some(attrs@[i as int].value@),
{
    let mut i: usize = 0;
    assert(attrs@.subrange(0, attrs@.len() as int) == attrs@);
    while i < attrs.len()
        invariant
            i <= attrs@.len(),
            lookup(attrs@, name@) == lookup(attrs@.subrange(i as int, attrs@.len() as int), name@),
        decreases attrs.len() - i,
    {
        let ghost rest = attrs@.subrange(i as int, attrs@.len() as int);
        assert(rest.drop_first() == attrs@.subrange(i + 1, attrs@.len() as int));
        if attrs[i].name == *name {
            return Some(i);
        }
        i = i + 1;
    }
    None
}

spec fn diff_le(a: Diff, b: Diff) -> bool {
    &&& a.added <= b.added
    &&& a.removed <= b.removed
    &&& a.empty_text <= b.empty_text
    &&& a.attrs_set <= b.attrs_set
    &&& a.attrs_removed <= b.attrs_removed
}

proof fn lemma_attrs_to_set_mono(gen: Seq<Attr>, existing: Seq<Attr>, i: int)
    requires
        0 <= i <= gen.len(),
    ensures
        attrs_to_set(gen.subrange(0, i), existing) <= attrs_to_set(gen, existing),
    decreases gen.len(),
{
    if i < gen.len() {
        assert(gen.drop_last().subrange(0, i) == gen.subrange(0, i));
        lemma_attrs_to_set_mono(gen.drop_last(), existing, i);
    } else {
        assert(gen.subrange(0, i) == gen);
    }
}

proof fn lemma_attrs_to_remove_mono(gen: Seq<Attr>, existing: Seq<Attr>, i: int)
    requires
        0 <= i <= existing.len(),
    ensures
        attrs_to_remove(gen, existing.subrange(0, i)) <= attrs_to_remove(gen, existing),
    decreases existing.len(),
{
    if i < existing.len() {
        assert(existing.drop_last().subrange(0, i) == existing.subrange(0, i));
        lemma_attrs_to_remove_mono(gen, existing.drop_last(), i);
    } else {
        assert(existing.subrange(0, i) == existing);
    }
}

proof fn lemma_pairs_mono(gs: Seq<VNode>, es: Seq<VNode>, i: nat, n: nat)
    requires
        i <= n <= gs.len(),
        n <= es.len(),
    ensures
        diff_le(pairs_diff(gs, es, i), pairs_diff(gs, es, n)),
    decreases n,
{
    if i < n {
        lemma_pairs_mono(gs, es, i, (n - 1) as nat);
    }
}

proof fn lemma_removals_mono(es: Seq<VNode>, i: int)
    requires
        0 <= i <= es.len(),
    ensures
        diff_le(removals(es.subrange(0, i)), removals(es)),
    decreases es.len(),
{
    if i < es.len() {
        assert(es.drop_last().subrange(0, i) == es.subrange(0, i));
        lemma_removals_mono(es.drop_last(), i);
    } else {
        assert(es.subrange(0, i) == es);
    }
}

/// Reconcile the attributes of a reused element, counting what changes.
fn hydrate_attrs(gen: &Vec<Attr>, existing: &Vec<Attr>, stats: &mut HydrationStats)
    requires
        old(stats).counts().plus(attr_diff(gen@, existing@)).fits(),
    ensures
        final(stats).counts() == old(stats).counts().plus(attr_diff(gen@, existing@)),
{
    let ghost s0 = stats.counts();
    let mut i: usize = 0;
    while i < gen.len()
        invariant
            i <= gen@.len(),
            s0.plus(attr_diff(gen@, existing@)).fits(),
            stats.counts() == s0.plus(
                Diff { attrs_set: attrs_to_set(gen@.subrange(0, i as int), existing@), ..Diff::zero() },
            ),
        decreases gen.len() - i,
    {
        let a = &gen[i];
        proof {
            let pre = gen@.subrange(0, i + 1);
            assert(pre.drop_last() == gen@.subrange(0, i as int));
            lemma_attrs_to_set_mono(gen@, existing@, i + 1);
        }
        if !is_reserved(&a.name) {
            match find_attr(existing, &a.name) {
                Some(j) => {
                    if existing[j].value != a.value {
                        stats.attribute_set();
                    }
                },
                None => {
                    stats.attribute_set();
                },
            }
        }
        i = i + 1;
    }
    assert(gen@.subrange(0, gen@.len() as int) == gen@);
    let ghost s1 = stats.counts();
    let mut j: usize = 0;
    while j < existing.len()
        invariant
            j <= existing@.len(),
            s0.plus(attr_diff(gen@, existing@)).fits(),
            s1 == s0.plus(Diff { attrs_set: attrs_to_set(gen@, existing@), ..Diff::zero() }),
            stats.counts() == s1.plus(
                Diff {
                    attrs_removed: attrs_to_remove(gen@, existing@.subrange(0, j as int)),
                    ..Diff::zero()
                },
            ),
        decreases existing.len() - j,
    {
        let a = &existing[j];
        proof {
            let pre = existing@.subrange(0, j + 1);
            assert(pre.drop_last() == existing@.subrange(0, j as int));
            lemma_attrs_to_remove_mono(gen@, existing@, j + 1);
        }
        if !is_reserved(&a.name) {
            if find_attr(gen, &a.name).is_none() {
                stats.attribute_removed();
            }
        }
        j = j + 1;
    }
    assert(existing@.subrange(0, existing@.len() as int) == existing@);
}

/// Count the removal of an existing node.
fn remove_existing(e: &VNode, stats: &mut HydrationStats)
    requires
        old(stats).counts().plus(removal(*e)).fits(),
    ensures
        final(stats).counts() == old(stats).counts().plus(removal(*e)),
{
    match e {
        VNode::Text { text } => {
            let b = is_blank(text);
            stats.node_removed(b);
        },
        VNode::Element { .. } => {
            stats.node_removed(false);
        },
    }
}

/// Hydrate generated node `g` against existing node `e`.
fn hydrate_node(g: &VNode, e: &VNode, stats: &mut HydrationStats)
    requires
        old(stats).counts().plus(node_diff(*g, *e)).fits(),
    ensures
        final(stats).counts() == old(stats).counts().plus(node_diff(*g, *e)),
    decreases g,
{
    match (g, e) {
        (
            VNode::Element { tag: gt, attrs: ga, children: gc },
            VNode::Element { tag: et, attrs: ea, children: ec },
        ) => {
            if *gt == *et {
                hydrate_attrs(ga, ea, stats);
                hydrate_children(gc, ec, stats);
                return;
            }
        },
        (VNode::Text { .. }, VNode::Text { .. }) => {
            return;
        },
        _ => {},
    }
    remove_existing(e, stats);
    stats.node_added();
}

/// Hydrate generated children against existing children, in lock-step.
fn hydrate_children(gs: &Vec<VNode>, es: &Vec<VNode>, stats: &mut HydrationStats)
    requires
        old(stats).counts().plus(children_diff(gs@, es@)).fits(),
    ensures
        final(stats).counts() == old(stats).counts().plus(children_diff(gs@, es@)),
    decreases gs,
{
    let ghost s0 = stats.counts();
    let n: usize = if gs.len() <= es.len() {
        gs.len()
    } else {
        es.len()
    };
    let ghost total = children_diff(gs@, es@);
    let mut i: usize = 0;
    while i < n
        invariant
            i <= n,
            n <= gs@.len(),
            n <= es@.len(),
            n == (if gs@.len() <= es@.len() {
                gs@.len()
            } else {
                es@.len()
            }),
            total == children_diff(gs@, es@),
            s0.plus(total).fits(),
            stats.counts() == s0.plus(pairs_diff(gs@, es@, i as nat)),
        decreases n - i,
    {
        proof {
            lemma_pairs_mono(gs@, es@, (i + 1) as nat, n as nat);
        }
        hydrate_node(&gs[i], &es[i], stats);
        i = i + 1;
    }
    let ghost s1 = stats.counts();
    let mut k: usize = n;
    while k < gs.len()
        invariant
            n <= k <= gs@.len(),
            n <= es@.len(),
            n == (if gs@.len() <= es@.len() {
                gs@.len()
            } else {
                es@.len()
            }),
            total == children_diff(gs@, es@),
            s0.plus(total).fits(),
            s1 == s0.plus(pairs_diff(gs@, es@, n as nat)),
            stats.counts() == s1.plus(Diff { added: (k - n) as nat, ..Diff::zero() }),
        decreases gs.len() - k,
    {
        stats.node_added();
        k = k + 1;
    }
    let ghost s2 = stats.counts();
    let ghost rest = es@.subrange(n as int, es@.len() as int);
    let mut j: usize = n;
    while j < es.len()
        invariant
            n <= j <= es@.len(),
            n <= gs@.len(),
            n == (if gs@.len() <= es@.len() {
                gs@.len()
            } else {
                es@.len()
            }),
            rest == es@.subrange(n as int, es@.len() as int),
            total == children_diff(gs@, es@),
            s0.plus(total).fits(),
            s2 == s0.plus(pairs_diff(gs@, es@, n as nat)).plus(
                Diff { added: (gs@.len() - n) as nat, ..Diff::zero() },
            ),
            stats.counts() == s2.plus(removals(rest.subrange(0, j - n))),
        decreases es.len() - j,
    {
        proof {
            assert(rest.subrange(0, j - n + 1).drop_last() == rest.subrange(0, j - n));
            assert(rest.subrange(0, j - n + 1).last() == es@[j as int]);
            lemma_removals_mono(rest, j - n + 1);
        }
        remove_existing(&es[j], stats);
        j = j + 1;
    }
    assert(rest.subrange(0, rest.len() as int) == rest);
}

/// What hydrating `generated` under a mount point whose children are
/// `existing` counts: the first existing child is the hydration point, or the
/// generated node is created when there is none.
///
/// Existing nodes that follow the hydration point are removed without being
/// counted.
pub open spec fn hydrate_diff(generated: VNode, existing: Seq<VNode>) -> Diff {
    if existing.len() == 0 {
        Diff::one_added()
    } else {
        node_diff(generated, existing[0])
    }
}

/// Hydrate `generated` against the children of the mount point, `existing`, and
/// report how far they were apart.
///
/// The pass never fails: a mismatched existing node is discarded and the
/// generated node created in its place.
pub fn hydrate(generated: &VNode, existing: &Vec<VNode>) -> (r: HydrationStats)
    requires
        hydrate_diff(*generated, existing@).fits(),
    ensures
        r.counts() == hydrate_diff(*generated, existing@),
{
    let mut stats = HydrationStats::new();
    if existing.len() == 0 {
        stats.node_added();
    } else {
        hydrate_node(generated, &existing[0], &mut stats);
    }
    stats
}

/// No two attributes share a name.
pub open spec fn distinct_names(attrs: Seq<Attr>) -> bool {
    forall|i: int, j: int|
        0 <= i < j < attrs.len() ==> #[trigger] attrs[i].name@ != #[trigger] attrs[j].name@
}

/// A generated tree in which no element repeats an attribute name, as in any
/// markup a document holds.
pub open spec fn well_formed(g: VNode) -> bool
    decreases g,
{
    match g {
        VNode::Element { attrs, children, .. } => distinct_names(attrs@) && forall|i: int|
            0 <= i < children@.len() ==> well_formed(#[trigger] children@[i]),
        VNode::Text { .. } => true,
    }
}

proof fn lemma_lookup_present(attrs: Seq<Attr>, k: int)
    requires
        0 <= k < attrs.len(),
    ensures
        lookup(attrs, attrs[k].name@) is Some,
        (forall|j: int| 0 <= j < k ==> #[trigger] attrs[j].name@ != attrs[k].name@) ==> lookup(
            attrs,
            attrs[k].name@,
        ) == Some(attrs[k].value@),
    decreases attrs.len(),
{
    if k > 0 && attrs[0].name@ != attrs[k].name@ {
        let rest = attrs.drop_first();
        assert(rest[k - 1] == attrs[k]);
        lemma_lookup_present(rest, k - 1);
        if forall|j: int| 0 <= j < k ==> #[trigger] attrs[j].name@ != attrs[k].name@ {
            assert forall|j: int| 0 <= j < k - 1 implies #[trigger] rest[j].name@ != rest[k
                - 1].name@ by {
                assert(rest[j] == attrs[j + 1]);
            }
        }
    }
}

proof fn lemma_attrs_self(a: Seq<Attr>, i: int)
    requires
        distinct_names(a),
        0 <= i <= a.len(),
    ensures
        attrs_to_set(a.subrange(0, i), a) == 0,
        attrs_to_remove(a, a.subrange(0, i)) == 0,
    decreases i,
{
    if i > 0 {
        let p = a.subrange(0, i);
        assert(p.drop_last() == a.subrange(0, i - 1));
        assert(p.last() == a[i - 1]);
        lemma_attrs_self(a, i - 1);
        lemma_lookup_present(a, i - 1);
    }
}

proof fn lemma_node_self(g: VNode)
    requires
        well_formed(g),
    ensures
        node_diff(g, g) == Diff::zero(),
    decreases g,
{
    if let VNode::Element { attrs, children, .. } = g {
        lemma_attrs_self(attrs@, attrs@.len() as int);
        assert(attrs@.subrange(0, attrs@.len() as int) == attrs@);
        lemma_pairs_self(children@, children@.len());
        assert(children@.subrange(children@.len() as int, children@.len() as int) =~= Seq::<
            VNode,
        >::empty());
    }
}

proof fn lemma_pairs_self(cs: Seq<VNode>, n: nat)
    requires
        n <= cs.len(),
        forall|i: int| 0 <= i < cs.len() ==> well_formed(#[trigger] cs[i]),
    ensures
        pairs_diff(cs, cs, n) == Diff::zero(),
    decreases cs, n,
{
    if n > 0 {
        lemma_pairs_self(cs, (n - 1) as nat);
        lemma_node_self(cs[n - 1]);
    }
}

/// Hydrating a generated tree against markup identical to it changes nothing:
/// the statistics report an exact match.
pub proof fn lemma_hydrate_identical_is_exact(g: VNode, existing: Seq<VNode>, s: HydrationStats)
    requires
        well_formed(g),
        existing.len() > 0,
        existing[0] == g,
        s.counts() == hydrate_diff(g, existing),
    ensures
        s.spec_exact_match(),
{
    lemma_node_self(g);
}

/// One repair of the existing markup, as plain values. A path gives child
/// positions from the mount point: the hydrated root is at `[0]`.
pub enum StepView {
    Reuse { path: Seq<usize> },
    SetText { path: Seq<usize>, text: Seq<char> },
    SetAttribute { path: Seq<usize>, name: Seq<char>, value: Seq<char> },
    RemoveAttribute { path: Seq<usize>, name: Seq<char> },
    Create { path: Seq<usize> },
    RemoveFrom { path: Seq<usize>, index: usize },
}

/// One repair of the existing markup.
///
/// - `Reuse`: the existing node at `path` stays, and gets the generated node's
///   handlers.
/// - `SetText`: the reused text node at `path` gets the generated text.
/// - `SetAttribute`, `RemoveAttribute`: on the reused element at `path`.
/// - `Create`: the generated node at `path` is created and takes the place of
///   the existing node there, which is discarded, or is appended when there is
///   none.
/// - `RemoveFrom`: the existing children of the node at `path`, from `index`
///   on, are discarded.
pub enum Step {
    Reuse { path: Vec<usize> },
    SetText { path: Vec<usize>, text: String },
    SetAttribute { path: Vec<usize>, name: String, value: String },
    RemoveAttribute { path: Vec<usize>, name: String },
    Create { path: Vec<usize> },
    RemoveFrom { path: Vec<usize>, index: usize },
}

impl View for Step {
    type V = StepView;

    open spec fn view(&self) -> StepView {
        match self {
            Step::Reuse { path } => StepView::Reuse { path: path@ },
            Step::SetText { path, text } => StepView::SetText { path: path@, text: text@ },
            Step::SetAttribute { path, name, value } => StepView::SetAttribute {
                path: path@,
                name: name@,
                value: value@,
            },
            Step::RemoveAttribute { path, name } => StepView::RemoveAttribute {
                path: path@,
                name: name@,
            },
            Step::Create { path } => StepView::Create { path: path@ },
            Step::RemoveFrom { path, index } => StepView::RemoveFrom { path: path@, index: *index },
        }
    }
}

pub open spec fn steps_view(s: Seq<Step>) -> Seq<StepView> {
    s.map_values(|x: Step| x@)
}

/// The attributes to set on a reused element, in generated order.
pub open spec fn set_plan(gen: Seq<Attr>, existing: Seq<Attr>, path: Seq<usize>) -> Seq<StepView>
    decreases gen.len(),
{
    if gen.len() == 0 {
        Seq::empty()
    } else {
        let a = gen.last();
        let rest = set_plan(gen.drop_last(), existing, path);
        if !reserved(a.name@) && lookup(existing, a.name@) != Some(a.value@) {
            rest.push(StepView::SetAttribute { path, name: a.name@, value: a.value@ })
        } else {
            rest
        }
    }
}

/// The attributes to remove from a reused element, in existing order.
pub open spec fn remove_plan(gen: Seq<Attr>, existing: Seq<Attr>, path: Seq<usize>) -> Seq<StepView>
    decreases existing.len(),
{
    if existing.len() == 0 {
        Seq::empty()
    } else {
        let a = existing.last();
        let rest = remove_plan(gen, existing.drop_last(), path);
        if !reserved(a.name@) && lookup(gen, a.name@) is None {
            rest.push(StepView::RemoveAttribute { path, name: a.name@ })
        } else {
            rest
        }
    }
}

/// The repairs of hydrating generated node `g`, at `path`, against existing
/// node `e`.
pub open spec fn node_plan(g: VNode, e: VNode, path: Seq<usize>) -> Seq<StepView>
    decreases g,
{
    if matches(g, e) {
        match (g, e) {
            (
                VNode::Element { attrs: ga, children: gc, .. },
                VNode::Element { attrs: ea, children: ec, .. },
            ) => seq![StepView::Reuse { path }] + set_plan(ga@, ea@, path) + remove_plan(
                ga@,
                ea@,
                path,
            ) + children_plan(gc@, ec@, path),
            (VNode::Text { text: gt }, VNode::Text { text: et }) => if gt@ == et@ {
                seq![StepView::Reuse { path }]
            } else {
                seq![StepView::Reuse { path }, StepView::SetText { path, text: gt@ }]
            },
            _ => Seq::empty(),
        }
    } else {
        seq![StepView::Create { path }]
    }
}

/// The repairs of the first `n` pairs of children of the node at `path`.
pub open spec fn pairs_plan(gs: Seq<VNode>, es: Seq<VNode>, path: Seq<usize>, n: nat) -> Seq<
    StepView,
>
    decreases gs, n,
{
    if n == 0 || n > gs.len() || n > es.len() {
        Seq::empty()
    } else {
        pairs_plan(gs, es, path, (n - 1) as nat) + node_plan(
            gs[n - 1],
            es[n - 1],
            path.push((n - 1) as usize),
        )
    }
}

/// The creation of the generated children of the node at `path` from
/// position `from` up to `to`.
pub open spec fn creates(path: Seq<usize>, from: nat, to: nat) -> Seq<StepView>
    decreases to,
{
    if to <= from {
        Seq::empty()
    } else {
        creates(path, from, (to - 1) as nat).push(
            StepView::Create { path: path.push((to - 1) as usize) },
        )
    }
}

/// The repairs of the children of the node at `path`: pairs in lock-step, then
/// the creation of the generated children left over, then the removal of the
/// existing children left over.
pub open spec fn children_plan(gs: Seq<VNode>, es: Seq<VNode>, path: Seq<usize>) -> Seq<StepView>
    decreases gs,
{
    let n = if gs.len() <= es.len() {
        gs.len()
    } else {
        es.len()
    };
    pairs_plan(gs, es, path, n) + creates(path, n, gs.len()) + if es.len() > n {
        seq![StepView::RemoveFrom { path, index: n as usize }]
    } else {
        Seq::empty()
    }
}

/// The repairs of hydrating `generated` under a mount point whose children
/// are `existing`.
pub open spec fn hydration_steps(generated: VNode, existing: Seq<VNode>) -> Seq<StepView> {
    if existing.len() == 0 {
        seq![StepView::Create { path: seq![0usize] }]
    } else {
        node_plan(generated, existing[0], seq![0usize]) + if existing.len() > 1 {
            seq![StepView::RemoveFrom { path: Seq::empty(), index: 1 }]
        } else {
            Seq::empty()
        }
    }
}

fn copy_path(p: &Vec<usize>) -> (r: Vec<usize>)
    ensures
        r@ == p@,
{
    let mut r: Vec<usize> = Vec::new();
    let mut i: usize = 0;
    while i < p.len()
        invariant
            i <= p@.len(),
            r@ == p@.subrange(0, i as int),
        decreases p.len() - i,
    {
        r.push(p[i]);
        i = i + 1;
        assert(r@ == p@.subrange(0, i as int));
    }
    assert(p@.subrange(0, p@.len() as int) == p@);
    r
}

fn child_path(p: &Vec<usize>, i: usize) -> (r: Vec<usize>)
    ensures
        r@ == p@.push(i),
{
    let mut r = copy_path(p);
    r.push(i);
    r
}

fn push_step(plan: &mut Vec<Step>, step: Step)
    ensures
        steps_view(final(plan)@) == steps_view(old(plan)@).push(step@),
{
    let ghost v0 = steps_view(plan@);
    plan.push(step);
    assert(steps_view(plan@) =~= v0.push(step@));
}

fn plan_attrs(gen: &Vec<Attr>, existing: &Vec<Attr>, path: &Vec<usize>, plan: &mut Vec<Step>)
    ensures
        steps_view(final(plan)@) == steps_view(old(plan)@) + set_plan(gen@, existing@, path@)
            + remove_plan(gen@, existing@, path@),
{
    let ghost v0 = steps_view(plan@);
    let mut i: usize = 0;
    while i < gen.len()
        invariant
            i <= gen@.len(),
            steps_view(plan@) == v0 + set_plan(gen@.subrange(0, i as int), existing@, path@),
        decreases gen.len() - i,
    {
        let a = &gen[i];
        proof {
            let pre = gen@.subrange(0, i + 1);
            assert(pre.drop_last() == gen@.subrange(0, i as int));
            assert(pre.last() == gen@[i as int]);
        }
        let ghost before = steps_view(plan@);
        let mut changed = false;
        if !is_reserved(&a.name) {
            match find_attr(existing, &a.name) {
                Some(j) => {
                    if existing[j].value != a.value {
                        changed = true;
                    }
                },
                None => {
                    changed = true;
                },
            }
        }
        if changed {
            push_step(
                plan,
                Step::SetAttribute { path: copy_path(path), name: a.name.clone(), value: a.value.clone() },
            );
            assert(steps_view(plan@) =~= v0 + set_plan(gen@.subrange(0, i + 1), existing@, path@));
        }
        i = i + 1;
    }
    assert(gen@.subrange(0, gen@.len() as int) == gen@);
    let ghost v1 = steps_view(plan@);
    let mut j: usize = 0;
    while j < existing.len()
        invariant
            j <= existing@.len(),
            v1 == v0 + set_plan(gen@, existing@, path@),
            steps_view(plan@) == v1 + remove_plan(gen@, existing@.subrange(0, j as int), path@),
        decreases existing.len() - j,
    {
        let a = &existing[j];
        proof {
            let pre = existing@.subrange(0, j + 1);
            assert(pre.drop_last() == existing@.subrange(0, j as int));
            assert(pre.last() == existing@[j as int]);
        }
        if !is_reserved(&a.name) {
            if find_attr(gen, &a.name).is_none() {
                push_step(plan, Step::RemoveAttribute { path: copy_path(path), name: a.name.clone() });
                assert(steps_view(plan@) =~= v1 + remove_plan(
                    gen@,
                    existing@.subrange(0, j + 1),
                    path@,
                ));
            }
        }
        j = j + 1;
    }
    assert(existing@.subrange(0, existing@.len() as int) == existing@);
    assert(steps_view(plan@) =~= v0 + set_plan(gen@, existing@, path@) + remove_plan(
        gen@,
        existing@,
        path@,
    ));
}

fn plan_node(g: &VNode, e: &VNode, path: &Vec<usize>, plan: &mut Vec<Step>)
    ensures
        steps_view(final(plan)@) == steps_view(old(plan)@) + node_plan(*g, *e, path@),
    decreases g,
{
    let ghost v0 = steps_view(plan@);
    match (g, e) {
        (
            VNode::Element { tag: gt, attrs: ga, children: gc },
            VNode::Element { tag: et, attrs: ea, children: ec },
        ) => {
            if *gt == *et {
                push_step(plan, Step::Reuse { path: copy_path(path) });
                plan_attrs(ga, ea, path, plan);
                plan_children(gc, ec, path, plan);
                assert(steps_view(plan@) =~= v0 + node_plan(*g, *e, path@));
                return;
            }
        },
        (VNode::Text { text: gt }, VNode::Text { text: et }) => {
            push_step(plan, Step::Reuse { path: copy_path(path) });
            if *gt != *et {
                push_step(plan, Step::SetText { path: copy_path(path), text: gt.clone() });
            }
            assert(steps_view(plan@) =~= v0 + node_plan(*g, *e, path@));
            return;
        },
        _ => {},
    }
    push_step(plan, Step::Create { path: copy_path(path) });
    assert(steps_view(plan@) =~= v0 + node_plan(*g, *e, path@));
}

fn plan_children(gs: &Vec<VNode>, es: &Vec<VNode>, path: &Vec<usize>, plan: &mut Vec<Step>)
    ensures
        steps_view(final(plan)@) == steps_view(old(plan)@) + children_plan(gs@, es@, path@),
    decreases gs,
{
    let ghost v0 = steps_view(plan@);
    let n: usize = if gs.len() <= es.len() {
        gs.len()
    } else {
        es.len()
    };
    let mut i: usize = 0;
    while i < n
        invariant
            i <= n,
            n <= gs@.len(),
            n <= es@.len(),
            steps_view(plan@) == v0 + pairs_plan(gs@, es@, path@, i as nat),
        decreases n - i,
    {
        let child = child_path(path, i);
        plan_node(&gs[i], &es[i], &child, plan);
        i = i + 1;
        assert(steps_view(plan@) =~= v0 + pairs_plan(gs@, es@, path@, i as nat));
    }
    let ghost v1 = steps_view(plan@);
    let mut k: usize = n;
    while k < gs.len()
        invariant
            n <= k <= gs@.len(),
            v1 == v0 + pairs_plan(gs@, es@, path@, n as nat),
            steps_view(plan@) == v1 + creates(path@, n as nat, k as nat),
        decreases gs.len() - k,
    {
        push_step(plan, Step::Create { path: child_path(path, k) });
        k = k + 1;
        assert(steps_view(plan@) =~= v1 + creates(path@, n as nat, k as nat));
    }
    if es.len() > n {
        push_step(plan, Step::RemoveFrom { path: copy_path(path), index: n });
    }
    assert(steps_view(plan@) =~= v0 + children_plan(gs@, es@, path@));
}

/// The repairs that make the existing markup under the mount point, whose
/// children are `existing`, into `generated`; existing nodes are reused where
/// they match. Applying them in order performs the pass that [`hydrate`]
/// counts.
pub fn hydration_plan(generated: &VNode, existing: &Vec<VNode>) -> (r: Vec<Step>)
    ensures
        steps_view(r@) == hydration_steps(*generated, existing@),
{
    let mut plan: Vec<Step> = Vec::new();
    let mut root: Vec<usize> = Vec::new();
    root.push(0);
    assert(root@ == seq![0usize]);
    assert(steps_view(plan@) =~= Seq::<StepView>::empty());
    if existing.len() == 0 {
        push_step(&mut plan, Step::Create { path: root });
    } else {
        plan_node(generated, &existing[0], &root, &mut plan);
        if existing.len() > 1 {
            push_step(&mut plan, Step::RemoveFrom { path: Vec::new(), index: 1 });
        }
    }
    assert(steps_view(plan@) =~= hydration_steps(*generated, existing@));
    plan
}

/// A plan that repairs nothing: every existing node is reused as it is.
pub open spec fn only_reuse(s: Seq<StepView>) -> bool {
    forall|i: int| 0 <= i < s.len() ==> #[trigger] s[i] is Reuse
}

proof fn lemma_attr_plan_self(a: Seq<Attr>, path: Seq<usize>, i: int)
    requires
        distinct_names(a),
        0 <= i <= a.len(),
    ensures
        set_plan(a.subrange(0, i), a, path) == Seq::<StepView>::empty(),
        remove_plan(a, a.subrange(0, i), path) == Seq::<StepView>::empty(),
    decreases i,
{
    if i > 0 {
        let p = a.subrange(0, i);
        assert(p.drop_last() == a.subrange(0, i - 1));
        assert(p.last() == a[i - 1]);
        lemma_attr_plan_self(a, path, i - 1);
        lemma_lookup_present(a, i - 1);
    }
}

proof fn lemma_node_plan_self(g: VNode, path: Seq<usize>)
    requires
        well_formed(g),
    ensures
        only_reuse(node_plan(g, g, path)),
    decreases g,
{
    if let VNode::Element { attrs, children, .. } = g {
        lemma_attr_plan_self(attrs@, path, attrs@.len() as int);
        assert(attrs@.subrange(0, attrs@.len() as int) == attrs@);
        lemma_pairs_plan_self(children@, path, children@.len());
        let n = children@.len();
        assert(creates(path, n, n) == Seq::<StepView>::empty());
        let s = node_plan(g, g, path);
        let c = pairs_plan(children@, children@, path, n);
        assert(s =~= seq![StepView::Reuse { path }] + c);
        assert forall|i: int| 0 <= i < s.len() implies #[trigger] s[i] is Reuse by {
            if i > 0 {
                assert(s[i] == c[i - 1]);
            }
        }
    }
}

proof fn lemma_pairs_plan_self(cs: Seq<VNode>, path: Seq<usize>, n: nat)
    requires
        n <= cs.len(),
        forall|i: int| 0 <= i < cs.len() ==> well_formed(#[trigger] cs[i]),
    ensures
        only_reuse(pairs_plan(cs, cs, path, n)),
    decreases cs, n,
{
    if n > 0 {
        lemma_pairs_plan_self(cs, path, (n - 1) as nat);
        lemma_node_plan_self(cs[n - 1], path.push((n - 1) as usize));
        let a = pairs_plan(cs, cs, path, (n - 1) as nat);
        let b = node_plan(cs[n - 1], cs[n - 1], path.push((n - 1) as usize));
        let s = pairs_plan(cs, cs, path, n);
        assert(s == a + b);
        assert forall|i: int| 0 <= i < s.len() implies #[trigger] s[i] is Reuse by {
            if i < a.len() {
                assert(s[i] == a[i]);
            } else {
                assert(s[i] == b[i - a.len()]);
            }
        }
    }
}

/// Hydrating a generated tree against markup identical to it (and nothing
/// after it) repairs nothing: every step of the plan reuses an existing node.
pub proof fn lemma_identical_plan_only_reuses(g: VNode, existing: Seq<VNode>)
    requires
        well_formed(g),
        existing.len() == 1,
        existing[0] == g,
    ensures
        only_reuse(hydration_steps(g, existing)),
{
    lemma_node_plan_self(g, seq![0usize]);
    assert(hydration_steps(g, existing) =~= node_plan(g, g, seq![0usize]));
}

/// The counted attribute repairs are exactly the attribute steps of the plan.
pub proof fn lemma_attr_counts_are_steps(gen: Seq<Attr>, existing: Seq<Attr>, path: Seq<usize>)
    ensures
        attrs_to_set(gen, existing) == set_plan(gen, existing, path).len(),
        attrs_to_remove(gen, existing) == remove_plan(gen, existing, path).len(),
    decreases gen.len() + existing.len(),
{
    if gen.len() > 0 {
        lemma_attr_counts_are_steps(gen.drop_last(), existing, path);
    }
    if existing.len() > 0 {
        lemma_attr_counts_are_steps(gen, existing.drop_last(), path);
    }
}

/// The attributes of an element as a map from name to value, the first of a
/// repeated name winning.
pub open spec fn attr_map(attrs: Seq<Attr>) -> Map<Seq<char>, Seq<char>> {
    Map::new(|n: Seq<char>| lookup(attrs, n) is Some, |n: Seq<char>| lookup(attrs, n)->0)
}

/// The attributes after the attribute steps of `steps`, in order.
pub open spec fn apply_attr_steps(m: Map<Seq<char>, Seq<char>>, steps: Seq<StepView>) -> Map<
    Seq<char>,
    Seq<char>,
>
    decreases steps.len(),
{
    if steps.len() == 0 {
        m
    } else {
        let m1 = apply_attr_steps(m, steps.drop_last());
        match steps.last() {
            StepView::SetAttribute { name, value, .. } => m1.insert(name, value),
            StepView::RemoveAttribute { name, .. } => m1.remove(name),
            _ => m1,
        }
    }
}

/// `m` holds `o` under `n`: the value for `Some`, nothing for `None`.
pub open spec fn holds(m: Map<Seq<char>, Seq<char>>, n: Seq<char>, o: Option<Seq<char>>) -> bool {
    match o {
        Some(v) => m.dom().contains(n) && m[n] == v,
        None => !m.dom().contains(n),
    }
}

proof fn lemma_apply_concat(m: Map<Seq<char>, Seq<char>>, a: Seq<StepView>, b: Seq<StepView>)
    ensures
        apply_attr_steps(m, a + b) == apply_attr_steps(apply_attr_steps(m, a), b),
    decreases b.len(),
{
    if b.len() == 0 {
        assert(a + b =~= a);
    } else {
        assert((a + b).drop_last() =~= a + b.drop_last());
        assert((a + b).last() == b.last());
        lemma_apply_concat(m, a, b.drop_last());
    }
}

proof fn lemma_lookup_push(s: Seq<Attr>, x: Attr, n: Seq<char>)
    ensures
        lookup(s.push(x), n) == if lookup(s, n) is Some {
            lookup(s, n)
        } else if x.name@ == n {
            Some(x.value@)
        } else {
            None
        },
    decreases s.len(),
{
    assert(s.push(x).len() > 0);
    if s.len() > 0 {
        assert(s.push(x)[0] == s[0]);
        assert(s.push(x).drop_first() =~= s.drop_first().push(x));
        lemma_lookup_push(s.drop_first(), x, n);
    } else {
        assert(s.push(x)[0] == x);
        assert(s.push(x).drop_first() =~= Seq::<Attr>::empty());
        assert(lookup(Seq::<Attr>::empty(), n) is None);
    }
}

proof fn lemma_lookup_names(s: Seq<Attr>, n: Seq<char>)
    ensures
        lookup(s, n) is Some <==> exists|k: int| 0 <= k < s.len() && (#[trigger] s[k]).name@ == n,
    decreases s.len(),
{
    if s.len() > 0 {
        lemma_lookup_names(s.drop_first(), n);
        if lookup(s, n) is Some && s[0].name@ != n {
            let k = choose|k: int| 0 <= k < s.len() - 1 && (#[trigger] s.drop_first()[k]).name@ == n;
            assert(s[k + 1] == s.drop_first()[k]);
        }
        if exists|k: int| 0 <= k < s.len() && (#[trigger] s[k]).name@ == n {
            let k = choose|k: int| 0 <= k < s.len() && (#[trigger] s[k]).name@ == n;
            if k > 0 {
                assert(s.drop_first()[k - 1] == s[k]);
            }
        }
    }
}

proof fn lemma_set_phase(gen: Seq<Attr>, existing: Seq<Attr>, path: Seq<usize>, i: int)
    requires
        distinct_names(gen),
        0 <= i <= gen.len(),
    ensures
        forall|n: Seq<char>|
            #![trigger apply_attr_steps(attr_map(existing), set_plan(gen.subrange(0, i), existing, path)).dom().contains(n)]
            holds(
                apply_attr_steps(attr_map(existing), set_plan(gen.subrange(0, i), existing, path)),
                n,
                if !reserved(n) && lookup(gen.subrange(0, i), n) is Some {
                    lookup(gen.subrange(0, i), n)
                } else {
                    lookup(existing, n)
                },
            ),
    decreases i,
{
    let m0 = attr_map(existing);
    if i == 0 {
        assert(set_plan(gen.subrange(0, 0), existing, path) =~= Seq::<StepView>::empty());
        assert forall|n: Seq<char>| #![trigger m0.dom().contains(n)] holds(m0, n, lookup(existing, n)) by {}
        assert forall|n: Seq<char>| lookup(gen.subrange(0, 0), n) is None by {}
    } else {
        lemma_set_phase(gen, existing, path, i - 1);
        let pre = gen.subrange(0, i - 1);
        let cur = gen.subrange(0, i);
        let a = gen[i - 1];
        assert(cur.drop_last() == pre);
        assert(cur.last() == a);
        assert(cur == pre.push(a));
        let prev_steps = set_plan(pre, existing, path);
        let m1 = apply_attr_steps(m0, prev_steps);
        let m2 = apply_attr_steps(m0, set_plan(cur, existing, path));
        assert(lookup(pre, a.name@) is None) by {
            lemma_lookup_names(pre, a.name@);
            if lookup(pre, a.name@) is Some {
                let k = choose|k: int| 0 <= k < pre.len() && (#[trigger] pre[k]).name@ == a.name@;
                assert(gen[k] == pre[k]);
            }
        }
        let set_here = !reserved(a.name@) && lookup(existing, a.name@) != Some(a.value@);
        if set_here {
            let st = StepView::SetAttribute { path, name: a.name@, value: a.value@ };
            assert(set_plan(cur, existing, path) == prev_steps.push(st));
            assert(prev_steps.push(st).drop_last() == prev_steps);
            assert(m2 == m1.insert(a.name@, a.value@));
        } else {
            assert(set_plan(cur, existing, path) == prev_steps);
        }
        assert forall|n: Seq<char>| #![trigger m2.dom().contains(n)] holds(
            m2,
            n,
            if !reserved(n) && lookup(cur, n) is Some {
                lookup(cur, n)
            } else {
                lookup(existing, n)
            },
        ) by {
            lemma_lookup_push(pre, a, n);
            assert(holds(
                m1,
                n,
                if !reserved(n) && lookup(pre, n) is Some {
                    lookup(pre, n)
                } else {
                    lookup(existing, n)
                },
            ));
            if n == a.name@ {
                assert(lookup(cur, n) == Some(a.value@));
            } else {
                assert(lookup(cur, n) == lookup(pre, n));
            }
        }
    }
}

proof fn lemma_remove_phase(gen: Seq<Attr>, existing: Seq<Attr>, path: Seq<usize>, m: Map<Seq<char>, Seq<char>>, j: int)
    requires
        0 <= j <= existing.len(),
        forall|n: Seq<char>| #![trigger m.dom().contains(n)] holds(
            m,
            n,
            if !reserved(n) && lookup(gen, n) is Some {
                lookup(gen, n)
            } else {
                lookup(existing, n)
            },
        ),
    ensures
        forall|n: Seq<char>|
            #![trigger apply_attr_steps(m, remove_plan(gen, existing.subrange(0, j), path)).dom().contains(n)]
            holds(
                apply_attr_steps(m, remove_plan(gen, existing.subrange(0, j), path)),
                n,
                if !reserved(n) && lookup(gen, n) is Some {
                    lookup(gen, n)
                } else if !reserved(n) && lookup(existing.subrange(0, j), n) is Some {
                    None
                } else {
                    lookup(existing, n)
                },
            ),
    decreases j,
{
    if j == 0 {
        assert(remove_plan(gen, existing.subrange(0, 0), path) =~= Seq::<StepView>::empty());
        assert forall|n: Seq<char>| lookup(existing.subrange(0, 0), n) is None by {}
    } else {
        lemma_remove_phase(gen, existing, path, m, j - 1);
        let pre = existing.subrange(0, j - 1);
        let cur = existing.subrange(0, j);
        let a = existing[j - 1];
        assert(cur.drop_last() == pre);
        assert(cur.last() == a);
        assert(cur == pre.push(a));
        let prev_steps = remove_plan(gen, pre, path);
        let m1 = apply_attr_steps(m, prev_steps);
        let m2 = apply_attr_steps(m, remove_plan(gen, cur, path));
        let remove_here = !reserved(a.name@) && lookup(gen, a.name@) is None;
        if remove_here {
            let st = StepView::RemoveAttribute { path, name: a.name@ };
            assert(remove_plan(gen, cur, path) == prev_steps.push(st));
            assert(prev_steps.push(st).drop_last() == prev_steps);
            assert(m2 == m1.remove(a.name@));
        } else {
            assert(remove_plan(gen, cur, path) == prev_steps);
        }
        assert forall|n: Seq<char>| #![trigger m2.dom().contains(n)] holds(
            m2,
            n,
            if !reserved(n) && lookup(gen, n) is Some {
                lookup(gen, n)
            } else if !reserved(n) && lookup(cur, n) is Some {
                None
            } else {
                lookup(existing, n)
            },
        ) by {
            lemma_lookup_push(pre, a, n);
            assert(holds(
                m1,
                n,
                if !reserved(n) && lookup(gen, n) is Some {
                    lookup(gen, n)
                } else if !reserved(n) && lookup(pre, n) is Some {
                    None
                } else {
                    lookup(existing, n)
                },
            ));
        }
    }
}

/// Applying the attribute steps of a reused element to its existing
/// attributes leaves every attribute with an ordinary name exactly as the
/// generated element has it, and every attribute with a reserved name as it
/// was.
pub proof fn lemma_attr_steps_converge(gen: Seq<Attr>, existing: Seq<Attr>, path: Seq<usize>, n: Seq<char>)
    requires
        distinct_names(gen),
    ensures
        holds(
            apply_attr_steps(attr_map(existing), set_plan(gen, existing, path) + remove_plan(gen, existing, path)),
            n,
            if reserved(n) {
                lookup(existing, n)
            } else {
                lookup(gen, n)
            },
        ),
{
    let m0 = attr_map(existing);
    lemma_set_phase(gen, existing, path, gen.len() as int);
    assert(gen.subrange(0, gen.len() as int) == gen);
    let m = apply_attr_steps(m0, set_plan(gen, existing, path));
    lemma_remove_phase(gen, existing, path, m, existing.len() as int);
    assert(existing.subrange(0, existing.len() as int) == existing);
    lemma_apply_concat(m0, set_plan(gen, existing, path), remove_plan(gen, existing, path));
    let r = apply_attr_steps(m, remove_plan(gen, existing, path));
    assert(r.dom().contains(n) == r.dom().contains(n));
}

} // verus!
