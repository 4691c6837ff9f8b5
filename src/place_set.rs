//! Finite sets of places, compared structurally.
use vstd::prelude::*;

use crate::mir::{Place, PlaceView};

verus! {

/// A finite set of places without structural duplicates.
#[derive(Debug)]
pub struct PlaceSet {
    items: Vec<Place>,
}

impl PlaceSet {
    pub closed spec fn views(&self) -> Seq<PlaceView> {
        self.items@.map_values(|p: Place| p@)
    }

    /// No two stored places are structurally equal.
    pub closed spec fn wf(&self) -> bool {
        self.views().no_duplicates()
    }

    pub closed spec fn spec_len(&self) -> nat {
        self.items@.len()
    }

    pub proof fn lemma_view(&self)
        requires
            self.wf(),
        ensures
            self@.finite(),
            self@.len() == self.spec_len(),
    {
        self.views().unique_seq_to_set();
    }

    pub proof fn lemma_finite(&self)
        ensures
            self@.finite(),
    {
        vstd::seq_lib::seq_to_set_is_finite(self.views());
    }

    pub fn new() -> (r: PlaceSet)
        ensures
            r.wf(),
            r@ == Set::<PlaceView>::empty(),
    {
        let r = PlaceSet { items: Vec::new() };
        assert(r@ =~= Set::<PlaceView>::empty());
        r
    }

    pub fn len(&self) -> (r: usize)
        requires
            self.wf(),
        ensures
            r == self@.len(),
    {
        proof {
            self.lemma_view();
        }
        self.items.len()
    }

    fn index_of(&self, p: &Place) -> (r: Option<usize>)
        ensures
            match r {
                Some(i) => i < self.items@.len() && self.items@[i as int]@ == p@,
                None => !self@.contains(p@),
            },
    {
        let mut i: usize = 0;
        while i < self.items.len()
            invariant
                i <= self.items@.len(),
                forall|j: int| 0 <= j < i ==> self.items@[j]@ != p@,
            decreases self.items.len() - i,
        {
            if self.items[i].same_as(p) {
                return Some(i);
            }
            i = i + 1;
        }
        proof {
            if self@.contains(p@) {
                let j = self.views().index_of(p@);
                assert(self.views()[j] == self.items@[j]@);
            }
        }
        None
    }

    pub fn contains(&self, p: &Place) -> (r: bool)
        ensures
            r == self@.contains(p@),
    {
        match self.index_of(p) {
            Some(i) => {
                assert(self.views()[i as int] == p@);
                true
            },
            None => false,
        }
    }

    /// Adds a copy of `p`; returns whether the set grew.
    pub fn insert(&mut self, p: &Place) -> (r: bool)
        requires
            old(self).wf(),
        ensures
            final(self).wf(),
            final(self)@ == old(self)@.insert(p@),
            r == !old(self)@.contains(p@),
    {
        if self.contains(p) {
            assert(self@.insert(p@) =~= self@);
            false
        } else {
            let ghost before = self.views();
            self.items.push(p.duplicate());
            assert(self.views() =~= before.push(p@));
            assert forall|v: PlaceView| #[trigger] self@.contains(v) == old(self)@.insert(p@).contains(v) by {
                if old(self)@.contains(v) {
                    let j = before.index_of(v);
                    assert(self.views()[j] == v);
                }
                if v == p@ {
                    assert(self.views()[before.len() as int] == v);
                }
                if self@.contains(v) {
                    let j = self.views().index_of(v);
                    if j < before.len() {
                        assert(before[j] == v);
                    }
                }
            }
            assert(self@ =~= old(self)@.insert(p@));
            true
        }
    }

    /// Removes the place structurally equal to `p`, if any.
    pub fn remove(&mut self, p: &Place)
        requires
            old(self).wf(),
        ensures
            final(self).wf(),
            final(self)@ == old(self)@.remove(p@),
    {
        match self.index_of(p) {
            Some(i) => {
                let ghost before = self.views();
                self.items.remove(i);
                assert(self.views() =~= before.remove(i as int));
                assert forall|v: PlaceView| #[trigger] self@.contains(v) == old(self)@.remove(p@).contains(v) by {
                    if old(self)@.remove(p@).contains(v) {
                        let j = before.index_of(v);
                        assert(j != i);
                        if j < i {
                            assert(self.views()[j] == v);
                        } else {
                            assert(self.views()[j - 1] == v);
                        }
                    }
                    if self@.contains(v) {
                        let j = self.views().index_of(v);
                        if j < i {
                            assert(before[j] == v);
                            assert(before[i as int] == p@);
                        } else {
                            assert(before[j + 1] == v);
                            assert(before[i as int] == p@);
                        }
                        assert(v != p@);
                    }
                }
                assert(self@ =~= old(self)@.remove(p@));
            },
            None => {
                assert(self@.remove(p@) =~= self@);
            },
        }
    }

    /// A structurally equal copy of the set.
    pub fn duplicate(&self) -> (r: PlaceSet)
        requires
            self.wf(),
        ensures
            r.wf(),
            r@ == self@,
    {
        let mut items: Vec<Place> = Vec::new();
        let mut i: usize = 0;
        while i < self.items.len()
            invariant
                i <= self.items@.len(),
                items@.map_values(|p: Place| p@) == self.views().subrange(0, i as int),
            decreases self.items.len() - i,
        {
            let ghost before = items@.map_values(|p: Place| p@);
            items.push(self.items[i].duplicate());
            assert(items@.map_values(|p: Place| p@) =~= before.push(self.items@[i as int]@));
            assert(self.views().subrange(0, i + 1) =~= self.views().subrange(0, i as int).push(self.views()[i as int]));
            i = i + 1;
        }
        assert(self.views().subrange(0, i as int) =~= self.views());
        PlaceSet { items }
    }

    /// Adds every place of `other`; returns whether the set grew.
    pub fn union_with(&mut self, other: &PlaceSet) -> (changed: bool)
        requires
            old(self).wf(),
            other.wf(),
        ensures
            final(self).wf(),
            final(self)@ == old(self)@.union(other@),
            changed == (final(self)@ != old(self)@),
    {
        let mut changed = false;
        let mut i: usize = 0;
        while i < other.items.len()
            invariant
                i <= other.items@.len(),
                self.wf(),
                self@ == old(self)@.union(other.views().subrange(0, i as int).to_set()),
                changed == !self@.subset_of(old(self)@),
            decreases other.items.len() - i,
        {
            let ghost prev = self@;
            let grew = self.insert(&other.items[i]);
            proof {
                assert(other.views()[i as int] == other.items@[i as int]@);
                assert(other.views().subrange(0, i + 1) =~= other.views().subrange(0, i as int).push(other.views()[i as int]));
                other.views().subrange(0, i as int).lemma_push_to_set_commute(other.views()[i as int]);
                assert(self@ =~= old(self)@.union(other.views().subrange(0, i + 1).to_set()));
                if grew {
                    assert(!old(self)@.contains(other.views()[i as int]));
                    assert(self@.contains(other.views()[i as int]));
                }
            }
            changed = changed || grew;
            i = i + 1;
        }
        assert(other.views().subrange(0, i as int) =~= other.views());
        proof {
            if !changed {
                assert(self@ =~= old(self)@);
            }
        }
        changed
    }

    /// Keeps only the places that `keep` holds (`keep == true`) or does not hold
    /// (`keep == false`) of `other`.
    fn retain_by(&mut self, other: &PlaceSet, keep: bool)
        requires
            old(self).wf(),
        ensures
            final(self).wf(),
            final(self)@ == old(self)@.filter(|v: PlaceView| other@.contains(v) == keep),
    {
        let mut items: Vec<Place> = Vec::new();
        let mut i: usize = 0;
        let ghost f = |v: PlaceView| other@.contains(v) == keep;
        while i < self.items.len()
            invariant
                i <= self.items@.len(),
                self.wf(),
                self == old(self),
                f == (|v: PlaceView| other@.contains(v) == keep),
                (PlaceSet { items }).wf(),
                (PlaceSet { items })@ == self.views().subrange(0, i as int).to_set().filter(f),
                forall|v: PlaceView| (PlaceSet { items })@.contains(v) ==> self.views().subrange(0, i as int).contains(v),
            decreases self.items.len() - i,
        {
            let ghost before = items@.map_values(|p: Place| p@);
            let ghost prefix = self.views().subrange(0, i as int);
            let ghost x = self.views()[i as int];
            assert(self.views().subrange(0, i + 1) =~= prefix.push(x));
            if other.contains(&self.items[i]) == keep {
                items.push(self.items[i].duplicate());
                proof {
                    let after = items@.map_values(|p: Place| p@);
                    assert(after =~= before.push(x));
                    assert(!prefix.contains(x)) by {
                        if prefix.contains(x) {
                            let j = prefix.index_of(x);
                            assert(self.views()[j] == x);
                        }
                    }
                    assert(!before.contains(x)) by {
                        if before.contains(x) {
                            assert(before.to_set().contains(x));
                        }
                    }
                    assert forall|v: PlaceView| #[trigger] after.to_set().contains(v) == prefix.push(x).to_set().filter(f).contains(v) by {
                        if after.to_set().contains(v) {
                            let j = after.index_of(v);
                            if j < before.len() {
                                assert(before[j] == v);
                                assert(before.to_set().contains(v));
                                let k = prefix.index_of(v);
                                assert(prefix.push(x)[k] == v);
                            } else {
                                assert(prefix.push(x)[i as int] == v);
                            }
                        }
                        if prefix.push(x).to_set().filter(f).contains(v) {
                            let k = prefix.push(x).index_of(v);
                            if k < i {
                                assert(prefix[k] == v);
                                assert(before.to_set().contains(v));
                                let j = before.index_of(v);
                                assert(after[j] == v);
                            } else {
                                assert(after[before.len() as int] == v);
                            }
                        }
                    }
                    assert((PlaceSet { items })@ =~= self.views().subrange(0, i + 1).to_set().filter(f));
                    assert forall|v: PlaceView| (PlaceSet { items })@.contains(v) implies self.views().subrange(0, i + 1).contains(v) by {
                        let k = prefix.push(x).to_set().filter(f);
                        assert(k.contains(v));
                    }
                }
            } else {
                proof {
                    assert forall|v: PlaceView| #[trigger] prefix.to_set().filter(f).contains(v) == prefix.push(x).to_set().filter(f).contains(v) by {
                        if prefix.to_set().filter(f).contains(v) {
                            let k = prefix.index_of(v);
                            assert(prefix.push(x)[k] == v);
                        }
                        if prefix.push(x).to_set().filter(f).contains(v) {
                            let k = prefix.push(x).index_of(v);
                            if k < i {
                                assert(prefix[k] == v);
                            }
                        }
                    }
                    assert(prefix.to_set().filter(f) =~= prefix.push(x).to_set().filter(f));
                    assert forall|v: PlaceView| (PlaceSet { items })@.contains(v) implies self.views().subrange(0, i + 1).contains(v) by {
                        let k = prefix.index_of(v);
                        assert(prefix.push(x)[k] == v);
                    }
                }
            }
            i = i + 1;
        }
        assert(self.views().subrange(0, i as int) =~= self.views());
        assert(old(self)@.filter(f) =~= old(self)@.filter(|v: PlaceView| other@.contains(v) == keep));
        self.items = items;
    }

    /// Keeps only the places that `other` holds too; returns whether the set
    /// shrank.
    pub fn intersect_with(&mut self, other: &PlaceSet) -> (changed: bool)
        requires
            old(self).wf(),
        ensures
            final(self).wf(),
            final(self)@ == old(self)@.intersect(other@),
            changed == (final(self)@ != old(self)@),
    {
        let n = self.len();
        self.retain_by(other, true);
        assert(self@ =~= old(self)@.intersect(other@));
        proof {
            old(self).lemma_view();
            self.lemma_view();
            if self@ != old(self)@ {
                assert(exists|x: PlaceView| old(self)@.contains(x) && !self@.contains(x)) by {
                    if !(exists|x: PlaceView| old(self)@.contains(x) && !self@.contains(x)) {
                        assert(self@ =~= old(self)@);
                    }
                }
                let x = choose|x: PlaceView| old(self)@.contains(x) && !self@.contains(x);
                assert(self@.subset_of(old(self)@.remove(x)));
                vstd::set_lib::lemma_len_subset(self@, old(self)@.remove(x));
            }
        }
        self.len() != n
    }

    /// Removes every place that `other` holds.
    pub fn subtract(&mut self, other: &PlaceSet)
        requires
            old(self).wf(),
        ensures
            final(self).wf(),
            final(self)@ == old(self)@.difference(other@),
    {
        self.retain_by(other, false);
        assert(self@ =~= old(self)@.difference(other@));
    }

    /// Whether some place of the set is rooted at `local`.
    pub fn has_root(&self, local: usize) -> (r: bool)
        ensures
            r == exists|v: PlaceView| self@.contains(v) && v.0 == local,
    {
        let mut i: usize = 0;
        while i < self.items.len()
            invariant
                i <= self.items@.len(),
                forall|j: int| 0 <= j < i ==> (#[trigger] self.items@[j]).local != local,
            decreases self.items.len() - i,
        {
            if self.items[i].local == local {
                assert(self.views()[i as int] == self.items@[i as int]@);
                assert(self@.contains(self.items@[i as int]@));
                return true;
            }
            i = i + 1;
        }
        proof {
            if exists|v: PlaceView| self@.contains(v) && v.0 == local {
                let v = choose|v: PlaceView| self@.contains(v) && v.0 == local;
                let j = self.views().index_of(v);
                assert(self.views()[j] == self.items@[j]@);
            }
        }
        false
    }

    /// The places of the set, in no particular order, without duplicates.
    pub fn to_vec(&self) -> (r: Vec<Place>)
        requires
            self.wf(),
        ensures
            r@.map_values(|p: Place| p@).no_duplicates(),
            r@.map_values(|p: Place| p@).to_set() == self@,
    {
        let copy = self.duplicate();
        copy.items
    }
}

impl View for PlaceSet {
    type V = Set<PlaceView>;

    closed spec fn view(&self) -> Set<PlaceView> {
        self.views().to_set()
    }
}

} // verus!
