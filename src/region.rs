use vstd::prelude::*;

verus! {

/// The interface that the tree asks of the regions it indexes.
///
/// A region can tell whether it contains a point, split itself into
/// sub-regions and tell whether it overlaps another region.
pub trait Region<P>: Sized {
    /// Whether the point lies within the region.
    spec fn spec_contains(&self, p: P) -> bool;

    /// Whether the two regions may share a point.
    spec fn spec_overlaps(&self, other: Self) -> bool;

    /// The sub-regions that `split` produces, in order.
    spec fn spec_split(&self) -> Seq<Self>;

    /// How far the region can still be subdivided. `split` gives children
    /// of strictly smaller extent whenever the extent is positive; a region
    /// of extent zero cannot separate its points any further.
    spec fn extent(&self) -> nat;

    /// `split` covers the region: it gives at least one sub-region, every
    /// point of the region lies in one of them, and none is more divisible
    /// than the region, each strictly less when the region is divisible.
    proof fn lemma_split_covers(&self)
        ensures
            self.spec_split().len() >= 1,
            forall|i: int|
                0 <= i < self.spec_split().len() ==> #[trigger] self.spec_split()[i].extent()
                    <= self.extent(),
            self.extent() > 0 ==> forall|i: int|
                0 <= i < self.spec_split().len() ==> #[trigger] self.spec_split()[i].extent()
                    < self.extent(),
            forall|p: P| #[trigger]
                self.spec_contains(p) ==> exists|i: int|
                    0 <= i < self.spec_split().len() && self.spec_split()[i].spec_contains(p),
    ;

    /// Two regions that share a point overlap.
    proof fn lemma_overlaps_sound(&self, other: &Self, p: P)
        requires
            self.spec_contains(p),
            other.spec_contains(p),
        ensures
            self.spec_overlaps(*other),
    ;

    /// Does this region contain this point?
    fn contains(&self, p: &P) -> (r: bool)
        ensures
            r == self.spec_contains(*p),
    ;

    /// Split this region into sub-regions (see `lemma_split_covers`).
    fn split(&self) -> (r: Vec<Self>)
        ensures
            r@ == self.spec_split(),
    ;

    /// Does this region overlap with this other region?
    fn overlaps(&self, other: &Self) -> (r: bool)
        ensures
            r == self.spec_overlaps(*other),
    ;

    /// Can this region be split into strictly smaller sub-regions?
    fn divisible(&self) -> (r: bool)
        ensures
            r == (self.extent() > 0),
    ;
}

} // verus!
