use vstd::prelude::*;

use crate::dom::DomElement;

verus! {

/// The elements mounted in the document, each under the id of its anchor node.
pub struct Apps {
    ids: Vec<String>,
    roots: Vec<DomElement>,
}

impl Apps {
    pub closed spec fn ids(&self) -> Seq<Seq<char>> {
        self.ids@.map_values(|s: String| s@)
    }

    /// The element mounted under each id, in mount order.
    pub closed spec fn elements(&self) -> Seq<DomElement> {
        self.roots@
    }

    pub open spec fn wf(&self) -> bool {
        &&& self.ids().no_duplicates()
        &&& self.ids().len() == self.elements().len()
    }

    /// Nothing mounted.
    pub fn new() -> (r: Self)
        ensures
            r.wf(),
            r.ids() == Seq::<Seq<char>>::empty(),
    {
        let r = Apps { ids: Vec::new(), roots: Vec::new() };
        assert(r.ids() =~= Seq::<Seq<char>>::empty());
        assert(r.elements() =~= Seq::<DomElement>::empty());
        r
    }

    /// Unmount the element mounted under `id`, if any, and hand it back for
    /// teardown.
    pub fn unmount(&mut self, id: &str) -> (r: Option<DomElement>)
        requires
            old(self).wf(),
        ensures
            final(self).wf(),
            r is Some <==> old(self).ids().contains(id@),
            r matches Some(e) ==> e == old(self).elements()[old(self).ids().index_of(id@)]
                && final(self).ids() == old(self).ids().remove(old(self).ids().index_of(id@))
                && final(self).elements() == old(self).elements().remove(
                old(self).ids().index_of(id@),
            ),
            r is None ==> final(self).ids() == old(self).ids() && final(self).elements() == old(
                self,
            ).elements(),
    {
        let key = id.to_owned();
        let ghost ids0 = self.ids();
        let ghost roots0 = self.elements();
        let mut i: usize = 0;
        while i < self.ids.len()
            invariant
                *self == *old(self),
                ids0 == self.ids(),
                roots0 == self.elements(),
                ids0.no_duplicates(),
                ids0.len() == roots0.len(),
                key@ == id@,
                i <= self.ids@.len(),
                forall|k: int| 0 <= k < i ==> ids0[k] != id@,
            decreases self.ids.len() - i,
        {
            assert(ids0[i as int] == self.ids@[i as int]@);
            if self.ids[i] == key {
                proof {
                    assert(ids0[i as int] == id@);
                    assert(ids0.contains(id@));
                    let c = ids0.index_of(id@);
                    assert(ids0[c] == id@);
                    assert(c == i);
                    assert(self.roots@.len() == roots0.len());
                }
                self.ids.remove(i);
                let e = self.roots.remove(i);
                proof {
                    assert(self.ids() =~= ids0.remove(i as int));
                    assert(self.elements() =~= roots0.remove(i as int));
                    assert forall|a: int, b: int|
                        0 <= a < b < self.ids().len() implies self.ids()[a] != self.ids()[b] by {
                        let a0 = if a < i { a } else { a + 1 };
                        let b0 = if b < i { b } else { b + 1 };
                        assert(self.ids()[a] == ids0[a0]);
                        assert(self.ids()[b] == ids0[b0]);
                    }
                }
                return Some(e);
            }
            i = i + 1;
        }
        None
    }

    /// Mount `elem` under `id`. An element already mounted under `id` is
    /// unmounted first and handed back for teardown.
    pub fn mount(&mut self, id: &str, elem: DomElement) -> (r: Option<DomElement>)
        requires
            old(self).wf(),
        ensures
            final(self).wf(),
            r is Some <==> old(self).ids().contains(id@),
            r matches Some(e) ==> e == old(self).elements()[old(self).ids().index_of(id@)],
            final(self).ids().last() == id@,
            final(self).elements().last() == elem,
            final(self).ids().drop_last() == if old(self).ids().contains(id@) {
                old(self).ids().remove(old(self).ids().index_of(id@))
            } else {
                old(self).ids()
            },
            final(self).elements().drop_last() == if old(self).ids().contains(id@) {
                old(self).elements().remove(old(self).ids().index_of(id@))
            } else {
                old(self).elements()
            },
    {
        let ghost h = elem;
        let previous = self.unmount(id);
        let ghost ids1 = self.ids();
        let ghost roots1 = self.elements();
        proof {
            assert(!ids1.contains(id@)) by {
                if ids1.contains(id@) {
                    let j = choose|j: int| 0 <= j < ids1.len() && ids1[j] == id@;
                    if previous is Some {
                        let p = old(self).ids().index_of(id@);
                        let j0 = if j < p { j } else { j + 1 };
                        assert(ids1[j] == old(self).ids()[j0]);
                        assert(old(self).ids()[p] == id@);
                    } else {
                        assert(old(self).ids()[j] == id@);
                    }
                }
            }
        }
        self.ids.push(id.to_owned());
        self.roots.push(elem);
        proof {
            assert(self.ids() =~= ids1.push(id@));
            assert(self.elements() =~= roots1.push(h));
            assert(self.ids().drop_last() =~= ids1);
            assert(self.elements().drop_last() =~= roots1);
            assert forall|a: int, b: int|
                0 <= a < b < self.ids().len() implies self.ids()[a] != self.ids()[b] by {
                if b == ids1.len() {
                    assert(ids1.contains(ids1[a]));
                }
            }
        }
        previous
    }
}

/// A value handed to a scoped generator.
pub struct Scope<T>(T);

impl<T> Scope<T> {
    pub closed spec fn inner(&self) -> T {
        self.0
    }

    pub fn new(value: T) -> (r: Self)
        ensures
            r.inner() == value,
    {
        Scope(value)
    }

    /// The scoped value.
    pub fn get(&self) -> (r: &T)
        ensures
            *r == self.inner(),
    {
        &self.0
    }
}

} // verus!
