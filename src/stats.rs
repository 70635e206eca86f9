use vstd::prelude::*;

verus! {

/// What a hydration pass counts, as mathematical numbers.
pub struct Diff {
    pub added: nat,
    pub removed: nat,
    pub empty_text: nat,
    pub attrs_set: nat,
    pub attrs_removed: nat,
}

impl Diff {
    pub open spec fn zero() -> Diff {
        Diff { added: 0, removed: 0, empty_text: 0, attrs_set: 0, attrs_removed: 0 }
    }

    pub open spec fn plus(self, o: Diff) -> Diff {
        Diff {
            added: self.added + o.added,
            removed: self.removed + o.removed,
            empty_text: self.empty_text + o.empty_text,
            attrs_set: self.attrs_set + o.attrs_set,
            attrs_removed: self.attrs_removed + o.attrs_removed,
        }
    }

    /// Every counter fits in a `u64`.
    pub open spec fn fits(self) -> bool {
        &&& self.added <= u64::MAX
        &&& self.removed <= u64::MAX
        &&& self.empty_text <= u64::MAX
        &&& self.attrs_set <= u64::MAX
        &&& self.attrs_removed <= u64::MAX
    }

    pub open spec fn one_added() -> Diff {
        Diff { added: 1, ..Diff::zero() }
    }

    pub open spec fn one_removed() -> Diff {
        Diff { removed: 1, ..Diff::zero() }
    }

    pub open spec fn one_empty_text() -> Diff {
        Diff { empty_text: 1, ..Diff::zero() }
    }

    pub open spec fn one_attr_set() -> Diff {
        Diff { attrs_set: 1, ..Diff::zero() }
    }

    pub open spec fn one_attr_removed() -> Diff {
        Diff { attrs_removed: 1, ..Diff::zero() }
    }
}

/// Statistics about one hydration pass.
///
/// A pass produces one record and it is not changed afterwards: the counting
/// methods are private to the crate.
#[derive(Debug, Clone, Copy, PartialEq, Eq)]
pub struct HydrationStats {
    nodes_added: u64,
    nodes_removed: u64,
    empty_text_removed: u64,
    attributes_set: u64,
    attributes_removed: u64,
}

impl HydrationStats {
    /// The counters as numbers.
    pub closed spec fn counts(&self) -> Diff {
        Diff {
            added: self.nodes_added as nat,
            removed: self.nodes_removed as nat,
            empty_text: self.empty_text_removed as nat,
            attrs_set: self.attributes_set as nat,
            attrs_removed: self.attributes_removed as nat,
        }
    }

    pub open spec fn spec_only_whitespace_diffs(&self) -> bool {
        self.counts().added == 0 && self.counts().removed == 0 && self.counts().attrs_set == 0
            && self.counts().attrs_removed == 0
    }

    pub open spec fn spec_exact_match(&self) -> bool {
        self.counts().empty_text == 0 && self.spec_only_whitespace_diffs()
    }

    /// A record with every counter at zero.
    pub fn new() -> (r: Self)
        ensures
            r.counts() == Diff::zero(),
    {
        HydrationStats {
            nodes_added: 0,
            nodes_removed: 0,
            empty_text_removed: 0,
            attributes_set: 0,
            attributes_removed: 0,
        }
    }

    /// `true` if the only differences between the existing markup and the
    /// generated tree were whitespace only text nodes.
    pub fn only_whitespace_diffs(&self) -> (r: bool)
        ensures
            r == self.spec_only_whitespace_diffs(),
    {
        self.nodes_added == 0 && self.nodes_removed == 0 && self.attributes_set == 0
            && self.attributes_removed == 0
    }

    /// `true` if there were no differences at all.
    pub fn exact_match(&self) -> (r: bool)
        ensures
            r == self.spec_exact_match(),
    {
        self.empty_text_removed == 0 && self.only_whitespace_diffs()
    }

    /// The number of new nodes created during hydration.
    pub fn nodes_added(&self) -> (r: u64)
        ensures
            r == self.counts().added,
    {
        self.nodes_added
    }

    /// The number of existing nodes, other than whitespace only text, removed
    /// during hydration.
    pub fn nodes_removed(&self) -> (r: u64)
        ensures
            r == self.counts().removed,
    {
        self.nodes_removed
    }

    /// The number of existing whitespace only text nodes removed during
    /// hydration.
    pub fn empty_text_removed(&self) -> (r: u64)
        ensures
            r == self.counts().empty_text,
    {
        self.empty_text_removed
    }

    /// The number of attributes that had to be set during hydration.
    pub fn attributes_set(&self) -> (r: u64)
        ensures
            r == self.counts().attrs_set,
    {
        self.attributes_set
    }

    /// The number of existing attributes removed during hydration.
    pub fn attributes_removed(&self) -> (r: u64)
        ensures
            r == self.counts().attrs_removed,
    {
        self.attributes_removed
    }

    pub(crate) fn node_added(&mut self)
        requires
            old(self).counts().plus(Diff::one_added()).fits(),
        ensures
            final(self).counts() == old(self).counts().plus(Diff::one_added()),
    {
        self.nodes_added = self.nodes_added + 1;
    }

    /// Count the removal of an existing node; `blank` tells whether it was a
    /// whitespace only text node.
    pub(crate) fn node_removed(&mut self, blank: bool)
        requires
            old(self).counts().plus(
                if blank {
                    Diff::one_empty_text()
                } else {
                    Diff::one_removed()
                },
            ).fits(),
        ensures
            final(self).counts() == old(self).counts().plus(
                if blank {
                    Diff::one_empty_text()
                } else {
                    Diff::one_removed()
                },
            ),
    {
        if blank {
            self.empty_text_removed = self.empty_text_removed + 1;
        } else {
            self.nodes_removed = self.nodes_removed + 1;
        }
    }

    pub(crate) fn attribute_set(&mut self)
        requires
            old(self).counts().plus(Diff::one_attr_set()).fits(),
        ensures
            final(self).counts() == old(self).counts().plus(Diff::one_attr_set()),
    {
        self.attributes_set = self.attributes_set + 1;
    }

    pub(crate) fn attribute_removed(&mut self)
        requires
            old(self).counts().plus(Diff::one_attr_removed()).fits(),
        ensures
            final(self).counts() == old(self).counts().plus(Diff::one_attr_removed()),
    {
        self.attributes_removed = self.attributes_removed + 1;
    }
}

} // verus!
