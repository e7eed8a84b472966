use vstd::prelude::*;

use crate::node::{
    accepts, all_within, first_child, first_containing, forest_points, insert_child, inserted,
    lemma_first_containing_bounds, lemma_forest_empty, lemma_inserted_reaches, lemma_room_accepts,
    lemma_within_mset, node_takes, regions_of, Kind, Node,
};
use crate::query::{forest_query, inside, lemma_forest_query, RangeQuery};
use crate::region::Region;

verus! {

broadcast use vstd::seq_lib::group_to_multiset_ensures, vstd::multiset::group_multiset_axioms;

/// A quadtree-like structure, but for arbitrary arity.
///
/// The root always branches into the sub-regions that its region splits
/// into; buckets below it hold at most `bucket_limit` points each.
pub struct NTree<R, P> {
    pub region: R,
    pub subregions: Vec<Node<R, P>>,
    pub bucket_limit: u8,
}

impl<R: Region<P>, P> NTree<R, P> {
    /// The region that the tree covers.
    pub open spec fn spec_region(&self) -> R {
        self.region
    }

    /// The bucket capacity fixed when the tree was made.
    pub open spec fn limit(&self) -> nat {
        self.bucket_limit as nat
    }

    /// The root's children.
    pub open spec fn children(&self) -> Seq<Node<R, P>> {
        self.subregions@
    }

    /// Every point stored in the tree, depth first, left to right.
    pub open spec fn points(&self) -> Seq<P> {
        forest_points(self.subregions@, self.subregions@.len() as int)
    }

    /// The tree's invariant: every child subtree is well formed for the
    /// tree's bucket limit, and every point lies in the tree's region.
    pub open spec fn wf(&self) -> bool {
        all_within(self.region, self.points()) && regions_of(self.subregions@)
            == self.region.spec_split() && forall|i: int|
            0 <= i < self.subregions@.len() ==> (#[trigger] self.subregions@[i]).wf(
                self.bucket_limit as nat,
            )
    }

    /// The points of the bucket that the lookup of `p` reaches, if any.
    pub open spec fn nearby_spec(&self, p: P) -> Option<Seq<P>> {
        if !self.region.spec_contains(p) {
            None
        } else {
            let i = first_containing(regions_of(self.subregions@), p);
            if 0 <= i < self.subregions@.len() {
                self.subregions@[i].nearby_spec(p)
            } else {
                None
            }
        }
    }

    /// `new` is what the tree becomes when `p` is inserted: the child that
    /// `p` is routed to becomes what `inserted` describes, everything else
    /// stays as it was.
    pub open spec fn inserted(&self, new: Self, p: P) -> bool {
        let o = self.subregions@;
        let ch = new.subregions@;
        let i = first_containing(regions_of(o), p);
        new.region == self.region && new.bucket_limit == self.bucket_limit && ch.len() == o.len()
            && 0 <= i < o.len() && (forall|j: int| 0 <= j < o.len() && j != i ==> #[trigger] ch[j] == o[j])
            && inserted(o[i], ch[i], p, self.bucket_limit as nat)
    }

    /// Whether inserting `p` stores it: the tree's region contains `p` and
    /// the child it goes to takes it, splitting full buckets as long as
    /// their regions divide.
    pub open spec fn accepts(&self, p: P) -> bool {
        let i = first_containing(regions_of(self.subregions@), p);
        self.region.spec_contains(p) && 0 <= i < self.subregions@.len() && accepts(
            self.subregions@[i],
            p,
            self.bucket_limit as nat,
        )
    }

    /// Whether the lookup of `p` reaches a bucket with room left.
    pub open spec fn has_room(&self, p: P) -> bool {
        match self.nearby_spec(p) {
            Some(s) => s.len() < self.limit(),
            None => false,
        }
    }

    /// Whether the lookup of `p` reaches a bucket that holds `p`.
    pub open spec fn reaches(&self, p: P) -> bool {
        match self.nearby_spec(p) {
            Some(s) => s.contains(p),
            None => false,
        }
    }

    /// Create a new n-tree which contains points within the region and
    /// whose buckets are limited to the passed-in size.
    ///
    /// The number of regions returned by `region.split()` is the arity of
    /// the tree.
    pub fn new(region: R, size: u8) -> (t: NTree<R, P>)
        ensures
            t.wf(),
            t.spec_region() == region,
            t.limit() == size,
            t.points() == Seq::<P>::empty(),
            regions_of(t.children()) == region.spec_split(),
            forall|i: int|
                0 <= i < t.children().len() ==> (#[trigger] t.children()[i]).is_bucket()
                    && t.children()[i].points().len() == 0,
            size > 0 ==> forall|p: P| #[trigger] region.spec_contains(p) ==> t.has_room(p),
    {
        let mut kids = region.split();
        let ghost split = region.spec_split();
        let mut children: Vec<Node<R, P>> = Vec::new();
        while kids.len() > 0
            invariant
                regions_of(children@) + kids@ == split,
                forall|k: int|
                    0 <= k < children@.len() ==> (#[trigger] children@[k]).is_bucket()
                        && children@[k].points().len() == 0 && children@[k].wf(size as nat),
            decreases kids@.len(),
        {
            let r = kids.remove(0);
            let ghost before = children@;
            children.push(
                Node { region: r, kind: Kind::Bucket { points: Vec::new(), bucket_limit: size } },
            );
            assert(regions_of(children@) =~= regions_of(before).push(r));
        }
        assert(regions_of(children@) =~= split);
        proof {
            lemma_forest_empty(children@, children@.len() as int);
        }
        let t = NTree { region, subregions: children, bucket_limit: size };
        proof {
            region.lemma_split_covers();
            assert forall|p: P| #[trigger] region.spec_contains(p) && size > 0 implies t.has_room(
                p,
            ) by {
                lemma_first_containing_bounds(split, p);
                let c = first_containing(split, p);
                if c == split.len() {
                    let w = choose|w: int| 0 <= w < split.len() && split[w].spec_contains(p);
                    assert(!split[w].spec_contains(p));
                }
                assert(children@[c].region == split[c]);
            }
        }
        t
    }

    /// Insert a point into the n-tree. Returns true if the point was
    /// stored. A full bucket on the point's way is split and its points
    /// reinserted. Returns false, and leaves the tree unchanged, when the
    /// tree's region does not contain the point or when the point would
    /// have to join a full bucket whose region can no longer be divided.
    pub fn insert(&mut self, point: P) -> (r: bool)
        requires
            old(self).wf(),
        ensures
            final(self).wf(),
            final(self).spec_region() == old(self).spec_region(),
            final(self).limit() == old(self).limit(),
            regions_of(final(self).children()) == regions_of(old(self).children()),
            !old(self).spec_region().spec_contains(point) ==> !r,
            !r ==> *final(self) == *old(self),
            r ==> old(self).inserted(*final(self), point),
            r ==> final(self).points().to_multiset() == old(self).points().to_multiset().insert(
                point,
            ),
            r ==> final(self).reaches(point),
            forall|q: P| old(self).reaches(q) ==> #[trigger] final(self).reaches(q),
            old(self).has_room(point) ==> r,
            r == old(self).accepts(point),
    {
        let ghost limit = self.bucket_limit as nat;
        if !self.region.contains(&point) {
            return false;
        }
        let i = first_child(&self.subregions, &point);
        if i >= self.subregions.len() || !node_takes(&self.subregions[i], &point, Ghost(limit)) {
            proof {
                if self.has_room(point) {
                    lemma_room_accepts(self.subregions@[i as int], point, limit);
                }
            }
            return false;
        }
        let ghost old_tree = *self;
        let ghost old_kids = self.subregions@;
        assert(old_kids[i as int].wf(limit));
        let ghost bound = old_kids[i as int].region.extent() + 1;
        insert_child(&mut self.subregions, i, point, Ghost(limit), Ghost(bound));
        proof {
            let new_kids = self.subregions@;
            let len = old_kids.len() as int;
            assert(regions_of(new_kids) =~= regions_of(old_kids));
            assert forall|k: int| 0 <= k < new_kids.len() implies (
            #[trigger] new_kids[k]).wf(limit) by {
                if k != i {
                    assert(new_kids[k] == old_kids[k]);
                }
            }
            lemma_within_mset(self.region, forest_points(old_kids, len), self.points(), point);
            assert(regions_of(new_kids)[i as int] == new_kids[i as int].region);
            assert forall|q: P| old_tree.reaches(q) implies #[trigger] self.reaches(q) by {
                let d = first_containing(regions_of(old_kids), q);
                if d == i {
                    lemma_inserted_reaches(old_kids[i as int], new_kids[i as int], point, q, limit);
                } else {
                    assert(new_kids[d] == old_kids[d]);
                }
            }
        }
        true
    }

    /// What a range query for `q` yields: the traversal of the root's
    /// children, each pruned where its region does not overlap `q`.
    pub open spec fn query_spec(&self, q: R) -> Seq<P> {
        forest_query(self.subregions@, self.subregions@.len() as int, q)
    }

    /// Get all the points within the queried region, lazily.
    ///
    /// The traversal visits the regions that overlap the query, depth
    /// first and left to right, and yields the points of their buckets
    /// that the query region contains, in insertion order.
    pub fn range_query<'t, 'q>(&'t self, query: &'q R) -> (r: RangeQuery<'t, 'q, R, P>)
        requires
            self.wf(),
        ensures
            r.inv(),
            r.query_region() == *query,
            r.remaining() == self.query_spec(*query),
            r.remaining() == self.points().filter(inside(*query)),
    {
        proof {
            lemma_range_query_exact(*self, *query);
        }
        RangeQuery::start(query, self.subregions.as_slice())
    }

    /// Is the point within the region that the n-tree covers? This tests
    /// the tree's bounds, not whether the point is stored.
    pub fn contains(&self, point: &P) -> (r: bool)
        ensures
            r == self.spec_region().spec_contains(*point),
    {
        self.region.contains(point)
    }

    /// Get all the points nearby a specified point: those of the bucket
    /// whose region contains it. This returns no more than the bucket limit.
    pub fn nearby(&self, point: &P) -> (r: Option<&[P]>)
        requires
            self.wf(),
        ensures
            match r {
                Some(s) => self.nearby_spec(*point) == Some(s@),
                None => self.nearby_spec(*point) is None,
            },
            r matches Some(s) ==> s@.len() <= self.limit(),
    {
        if !self.region.contains(point) {
            return None;
        }
        let i = first_child(&self.subregions, point);
        if i < self.subregions.len() {
            proof {
                lemma_nearby_len(self.subregions@[i as int], *point, self.bucket_limit as nat);
            }
            self.subregions[i].nearby(point)
        } else {
            None
        }
    }
}

/// A range query yields exactly the stored points that the query region
/// contains, no more and no fewer, in depth-first, left-to-right order.
pub proof fn lemma_range_query_exact<R: Region<P>, P>(t: NTree<R, P>, q: R)
    requires
        t.wf(),
    ensures
        t.query_spec(q) == t.points().filter(inside(q)),
        forall|p: P| #[trigger]
            t.query_spec(q).contains(p) <==> t.points().contains(p) && q.spec_contains(p),
{
    let len = t.subregions@.len() as int;
    lemma_forest_query(t.subregions@, len, q, t.bucket_limit as nat);
    let s = t.points();
    assert forall|p: P| #[trigger]
        t.query_spec(q).contains(p) <==> s.contains(p) && q.spec_contains(p) by {
        let f = s.filter(inside(q));
        if f.contains(p) {
            s.lemma_filter_contains_rev(inside(q), p);
            let i = choose|i: int| 0 <= i < f.len() && f[i] == p;
            s.lemma_filter_pred(inside(q), i);
        }
        if s.contains(p) && q.spec_contains(p) {
            let i = choose|i: int| 0 <= i < s.len() && s[i] == p;
            s.lemma_filter_contains(inside(q), i);
        }
    }
}

/// No bucket that a lookup can reach in a well-formed tree holds more
/// points than the tree's bucket limit.
pub proof fn lemma_capacity_bound<R: Region<P>, P>(t: NTree<R, P>, p: P)
    requires
        t.wf(),
    ensures
        t.nearby_spec(p) matches Some(s) ==> s.len() <= t.limit(),
{
    let i = first_containing(regions_of(t.subregions@), p);
    if t.region.spec_contains(p) && 0 <= i < t.subregions@.len() {
        lemma_nearby_len(t.subregions@[i], p, t.bucket_limit as nat);
    }
}

/// The bucket that a lookup reaches in a well-formed subtree is within the
/// limit.
pub proof fn lemma_nearby_len<R: Region<P>, P>(n: Node<R, P>, p: P, limit: nat)
    requires
        n.wf(limit),
    ensures
        n.nearby_spec(p) matches Some(s) ==> s.len() <= limit,
    decreases n,
{
    if n.region.spec_contains(p) {
        match n.kind {
            Kind::Bucket { .. } => {},
            Kind::Branch { subregions } => {
                let i = first_containing(regions_of(subregions@), p);
                if 0 <= i < subregions@.len() {
                    lemma_nearby_len(subregions@[i], p, limit);
                }
            },
        }
    }
}

} // verus!
