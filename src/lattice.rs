//! The must-write lattice: `Top` (nothing known yet, the identity of the
//! join) or a concrete set of places, joined by intersection. The may-read
//! lattice is a plain `PlaceSet` joined by union.
use vstd::prelude::*;

use crate::mir::{Place, PlaceView};
use crate::place_set::PlaceSet;

verus! {

/// A must-write fact: `Top` until a path reaches the point, then the places
/// written on every path that reaches it.
#[derive(Debug)]
pub enum MustPlaceSet {
    Top,
    Concrete(PlaceSet),
}

/// The join of must-write facts: `Top` is the identity, concrete sets meet
/// by intersection.
pub open spec fn must_join(a: Option<Set<PlaceView>>, b: Option<Set<PlaceView>>) -> Option<Set<PlaceView>> {
    match (a, b) {
        (None, _) => b,
        (_, None) => a,
        (Some(x), Some(y)) => Some(x.intersect(y)),
    }
}

/// The order of the must-write lattice: `Top` lies below everything, and a
/// concrete set lies below its subsets.
pub open spec fn must_le(a: Option<Set<PlaceView>>, b: Option<Set<PlaceView>>) -> bool {
    match (a, b) {
        (None, _) => true,
        (Some(_), None) => false,
        (Some(x), Some(y)) => y.subset_of(x),
    }
}

/// Records a write of `p` on every path through this point.
pub open spec fn must_gen(a: Option<Set<PlaceView>>, p: PlaceView) -> Option<Set<PlaceView>> {
    match a {
        None => None,
        Some(x) => Some(x.insert(p)),
    }
}

impl View for MustPlaceSet {
    type V = Option<Set<PlaceView>>;

    open spec fn view(&self) -> Option<Set<PlaceView>> {
        match self {
            MustPlaceSet::Top => None,
            MustPlaceSet::Concrete(s) => Some(s@),
        }
    }
}

impl MustPlaceSet {
    pub open spec fn wf(&self) -> bool {
        match self {
            MustPlaceSet::Top => true,
            MustPlaceSet::Concrete(s) => s.wf(),
        }
    }

    /// The identity of the join.
    pub fn top() -> (r: MustPlaceSet)
        ensures
            r.wf(),
            r@ == None::<Set<PlaceView>>,
    {
        MustPlaceSet::Top
    }

    /// The concrete empty set: nothing written yet.
    pub fn empty() -> (r: MustPlaceSet)
        ensures
            r.wf(),
            r@ == Some(Set::<PlaceView>::empty()),
    {
        MustPlaceSet::Concrete(PlaceSet::new())
    }

    pub fn duplicate(&self) -> (r: MustPlaceSet)
        requires
            self.wf(),
        ensures
            r.wf(),
            r@ == self@,
    {
        match self {
            MustPlaceSet::Top => MustPlaceSet::Top,
            MustPlaceSet::Concrete(s) => MustPlaceSet::Concrete(s.duplicate()),
        }
    }

    /// The concrete set, or `None` for `Top`.
    pub fn into_set(self) -> (r: Option<PlaceSet>)
        requires
            self.wf(),
        ensures
            match r {
                None => self@ is None,
                Some(s) => s.wf() && self@ == Some(s@),
            },
    {
        match self {
            MustPlaceSet::Top => None,
            MustPlaceSet::Concrete(s) => Some(s),
        }
    }

    /// Joins `other` into `self`; returns whether `self` changed.
    pub fn join(&mut self, other: &MustPlaceSet) -> (changed: bool)
        requires
            old(self).wf(),
            other.wf(),
        ensures
            final(self).wf(),
            final(self)@ == must_join(old(self)@, other@),
            changed == (final(self)@ != old(self)@),
    {
        match other {
            MustPlaceSet::Top => false,
            MustPlaceSet::Concrete(theirs) => {
                match self {
                    MustPlaceSet::Top => {
                        *self = MustPlaceSet::Concrete(theirs.duplicate());
                        true
                    },
                    MustPlaceSet::Concrete(mine) => mine.intersect_with(theirs),
                }
            },
        }
    }

    /// Records a write of `p`.
    pub fn gen(&mut self, p: &Place)
        requires
            old(self).wf(),
        ensures
            final(self).wf(),
            final(self)@ == must_gen(old(self)@, p@),
    {
        match self {
            MustPlaceSet::Top => {},
            MustPlaceSet::Concrete(mine) => {
                mine.insert(p);
            },
        }
    }
}

} // verus!
