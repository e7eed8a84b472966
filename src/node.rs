use vstd::prelude::*;
use vstd::multiset::Multiset;
use vstd::seq_lib::lemma_multiset_commutative;

use crate::region::Region;

verus! {

broadcast use vstd::seq_lib::group_to_multiset_ensures, vstd::multiset::group_multiset_axioms;

/// A node below the root: a bucket of points or a branch of sub-nodes.
pub struct Node<R, P> {
    pub region: R,
    pub kind: Kind<R, P>,
}

pub enum Kind<R, P> {
    /// A leaf of the tree, which holds points.
    Bucket { points: Vec<P>, bucket_limit: u8 },
    /// An interior node, whose children partition its region.
    Branch { subregions: Vec<Node<R, P>> },
}

/// Index of the first region in `rs` that contains `p`, or `rs.len()`
/// when none does.
pub open spec fn first_containing<R: Region<P>, P>(rs: Seq<R>, p: P) -> int
    decreases rs.len(),
{
    if rs.len() == 0 {
        0
    } else if rs[0].spec_contains(p) {
        0
    } else {
        1 + first_containing(rs.drop_first(), p)
    }
}

pub proof fn lemma_first_containing<R: Region<P>, P>(rs: Seq<R>, p: P, i: int)
    requires
        0 <= i <= rs.len(),
        forall|j: int| 0 <= j < i ==> !#[trigger] rs[j].spec_contains(p),
        i < rs.len() ==> rs[i].spec_contains(p),
    ensures
        first_containing(rs, p) == i,
    decreases rs.len(),
{
    if rs.len() > 0 && i > 0 {
        assert forall|j: int| 0 <= j < i - 1 implies !#[trigger] rs.drop_first()[j].spec_contains(
            p,
        ) by {
            assert(rs.drop_first()[j] == rs[j + 1]);
        }
        lemma_first_containing(rs.drop_first(), p, i - 1);
    }
}

pub proof fn lemma_first_containing_bounds<R: Region<P>, P>(rs: Seq<R>, p: P)
    ensures
        0 <= first_containing(rs, p) <= rs.len(),
        first_containing(rs, p) < rs.len() ==> rs[first_containing(rs, p)].spec_contains(p),
        forall|j: int| 0 <= j < first_containing(rs, p) ==> !#[trigger] rs[j].spec_contains(p),
    decreases rs.len(),
{
    if rs.len() > 0 && !rs[0].spec_contains(p) {
        lemma_first_containing_bounds(rs.drop_first(), p);
        assert forall|j: int| 0 <= j < first_containing(rs, p) implies !#[trigger] rs[j].spec_contains(p) by {
            if j > 0 {
                assert(rs[j] == rs.drop_first()[j - 1]);
            }
        }
    }
}

/// The regions of a sequence of nodes.
pub open spec fn regions_of<R: Region<P>, P>(s: Seq<Node<R, P>>) -> Seq<R> {
    s.map_values(|n: Node<R, P>| n.region)
}

/// Points held in the first `n` nodes of `s`, left to right.
pub open spec fn forest_points<R: Region<P>, P>(s: Seq<Node<R, P>>, n: int) -> Seq<P>
    decreases s, n,
{
    if n <= 0 || n > s.len() {
        Seq::empty()
    } else {
        forest_points(s, n - 1) + s[n - 1].points()
    }
}

/// Every point of `s` lies in `region`.
pub open spec fn all_within<R: Region<P>, P>(region: R, s: Seq<P>) -> bool {
    forall|i: int| 0 <= i < s.len() ==> region.spec_contains(#[trigger] s[i])
}

impl<R: Region<P>, P> Node<R, P> {
    /// Every point stored in this subtree, depth first, left to right.
    pub open spec fn points(self) -> Seq<P>
        decreases self, 0int,
    {
        match self.kind {
            Kind::Bucket { points, .. } => points@,
            Kind::Branch { subregions } => forest_points(subregions@, subregions@.len() as int),
        }
    }

    pub open spec fn is_bucket(self) -> bool {
        self.kind is Bucket
    }

    /// The subtree is well formed: its points lie in its region, its buckets
    /// hold at most `limit` points each, and every branch has a divisible
    /// region whose children are strictly less divisible.
    pub open spec fn wf(self, limit: nat) -> bool
        decreases self,
    {
        all_within(self.region, self.points()) && match self.kind {
            Kind::Bucket { points, bucket_limit } => bucket_limit == limit && points@.len()
                <= limit,
            Kind::Branch { subregions } => self.region.extent() > 0 && regions_of(subregions@)
                == self.region.spec_split() && forall|i: int|
                0 <= i < subregions@.len() ==> (#[trigger] subregions@[i]).region.extent()
                    < self.region.extent() && subregions@[i].wf(limit),
        }
    }

    /// The points of the bucket that the lookup of `p` reaches, if any.
    pub open spec fn nearby_spec(self, p: P) -> Option<Seq<P>>
        decreases self,
    {
        if !self.region.spec_contains(p) {
            None
        } else {
            match self.kind {
                Kind::Bucket { points, .. } => Some(points@),
                Kind::Branch { subregions } => {
                    let i = first_containing(regions_of(subregions@), p);
                    if 0 <= i < subregions@.len() {
                        subregions@[i].nearby_spec(p)
                    } else {
                        None
                    }
                },
            }
        }
    }
}

/// Replacing one node of a forest swaps its points for the new node's.
pub proof fn lemma_forest_update<R: Region<P>, P>(
    s: Seq<Node<R, P>>,
    j: int,
    x: Node<R, P>,
    n: int,
)
    requires
        0 <= j < n <= s.len(),
    ensures
        forest_points(s.update(j, x), n).to_multiset().add(s[j].points().to_multiset())
            =~= forest_points(s, n).to_multiset().add(x.points().to_multiset()),
    decreases n,
{
    let t = s.update(j, x);
    assert(t.len() == s.len());
    assert(forest_points(t, n) == forest_points(t, n - 1) + t[n - 1].points());
    assert(forest_points(s, n) == forest_points(s, n - 1) + s[n - 1].points());
    lemma_multiset_commutative(forest_points(t, n - 1), t[n - 1].points());
    lemma_multiset_commutative(forest_points(s, n - 1), s[n - 1].points());
    let lhs = forest_points(t, n).to_multiset().add(s[j].points().to_multiset());
    let rhs = forest_points(s, n).to_multiset().add(x.points().to_multiset());
    if j < n - 1 {
        lemma_forest_update(s, j, x, n - 1);
        assert(t[n - 1] == s[n - 1]);
        assert forall|v: P| lhs.count(v) == rhs.count(v) by {
            assert(forest_points(t, n - 1).to_multiset().add(s[j].points().to_multiset()).count(v)
                == forest_points(s, n - 1).to_multiset().add(x.points().to_multiset()).count(v));
        }
    } else {
        lemma_forest_same(s, t, n - 1);
        assert(t[n - 1] == x);
        assert forall|v: P| lhs.count(v) == rhs.count(v) by {}
    }
}

/// Forests that agree on their first `n` nodes hold the same points there.
pub proof fn lemma_forest_same<R: Region<P>, P>(s: Seq<Node<R, P>>, t: Seq<Node<R, P>>, n: int)
    requires
        0 <= n <= s.len(),
        n <= t.len(),
        forall|i: int| 0 <= i < n ==> s[i] == t[i],
    ensures
        forest_points(s, n) == forest_points(t, n),
    decreases n,
{
    if n > 0 {
        lemma_forest_same(s, t, n - 1);
    }
}

/// A forest whose nodes keep their points in `r` keeps them all in `r`.
pub proof fn lemma_forest_within<R: Region<P>, P>(r: R, s: Seq<Node<R, P>>, n: int)
    requires
        0 <= n <= s.len(),
        forall|i: int| 0 <= i < n ==> all_within(r, #[trigger] s[i].points()),
    ensures
        all_within(r, forest_points(s, n)),
    decreases n,
{
    if n > 0 {
        lemma_forest_within(r, s, n - 1);
        let a = forest_points(s, n - 1);
        let b = s[n - 1].points();
        assert forall|i: int| 0 <= i < (a + b).len() implies r.spec_contains(#[trigger] (a + b)[i]) by {
            if i >= a.len() {
                assert((a + b)[i] == b[i - a.len()]);
            }
        }
    }
}

/// A sequence with the points of `a`, and perhaps `p`, stays in `r` when
/// `a` and `p` do.
pub proof fn lemma_within_mset<R: Region<P>, P>(r: R, a: Seq<P>, b: Seq<P>, p: P)
    requires
        all_within(r, a),
        r.spec_contains(p),
        b.to_multiset() == a.to_multiset() || b.to_multiset() == a.to_multiset().insert(p),
    ensures
        all_within(r, b),
{
    assert forall|i: int| 0 <= i < b.len() implies r.spec_contains(#[trigger] b[i]) by {
        assert(b.contains(b[i]));
        assert(b.to_multiset().contains(b[i]));
        if b[i] != p {
            assert(a.to_multiset().contains(b[i]));
            assert(a.contains(b[i]));
        }
    }
}

/// Index of the first node in `nodes` whose region contains `p`, or the
/// number of nodes when none does.
pub fn first_child<R: Region<P>, P>(nodes: &Vec<Node<R, P>>, p: &P) -> (i: usize)
    ensures
        i == first_containing(regions_of(nodes@), *p),
{
    let mut i: usize = 0;
    while i < nodes.len()
        invariant
            0 <= i <= nodes@.len(),
            forall|j: int| 0 <= j < i ==> !#[trigger] regions_of(nodes@)[j].spec_contains(*p),
        decreases nodes@.len() - i,
    {
        if nodes[i].region.contains(p) {
            proof {
                lemma_first_containing(regions_of(nodes@), *p, i as int);
            }
            return i;
        }
        i = i + 1;
    }
    proof {
        lemma_first_containing(regions_of(nodes@), *p, i as int);
    }
    i
}

impl<R: Region<P>, P> Node<R, P> {
    /// The points of the bucket that the lookup of `p` reaches, walking down
    /// the first child whose region contains `p` at each level.
    pub fn nearby(&self, p: &P) -> (r: Option<&[P]>)
        ensures
            match r {
                Some(s) => self.nearby_spec(*p) == Some(s@),
                None => self.nearby_spec(*p) is None,
            },
        decreases self,
    {
        if !self.region.contains(p) {
            return None;
        }
        match &self.kind {
            Kind::Bucket { points, .. } => Some(points.as_slice()),
            Kind::Branch { subregions } => {
                let i = first_child(subregions, p);
                if i < subregions.len() {
                    subregions[i].nearby(p)
                } else {
                    None
                }
            },
        }
    }
}

/// Whether the lookup of `p` in `n` reaches a bucket with room left.
pub open spec fn has_room<R: Region<P>, P>(n: Node<R, P>, p: P, limit: nat) -> bool {
    match n.nearby_spec(p) {
        Some(s) => s.len() < limit,
        None => false,
    }
}

/// Whether the lookup of `p` in `n` reaches a bucket that holds `p`.
pub open spec fn reaches<R: Region<P>, P>(n: Node<R, P>, p: P) -> bool {
    match n.nearby_spec(p) {
        Some(s) => s.contains(p),
        None => false,
    }
}

/// The points whose first containing region in `rs` is the one at `c`.
pub open spec fn routes_to<R: Region<P>, P>(rs: Seq<R>, c: int) -> spec_fn(P) -> bool {
    |x: P| first_containing(rs, x) == c
}

/// Whether a bucket over `region` holding `pts` takes `p`: it has room, or
/// its region divides and the sub-bucket that `p` goes to after the split,
/// holding the points routed there, takes `p`.
pub open spec fn bucket_accepts<R: Region<P>, P>(region: R, pts: Seq<P>, limit: nat, p: P) -> bool
    decreases region.extent(),
{
    pts.len() < limit || (region.extent() > 0 && {
        let kids = region.spec_split();
        let c = first_containing(kids, p);
        0 <= c < kids.len() && kids[c].extent() < region.extent() && bucket_accepts(
            kids[c],
            pts.filter(routes_to(kids, c)),
            limit,
            p,
        )
    })
}

/// Whether inserting `p` into the subtree `n` stores it.
pub open spec fn accepts<R: Region<P>, P>(n: Node<R, P>, p: P, limit: nat) -> bool
    decreases n,
{
    n.region.spec_contains(p) && match n.kind {
        Kind::Bucket { points, .. } => bucket_accepts(n.region, points@, limit, p),
        Kind::Branch { subregions } => {
            let i = first_containing(regions_of(subregions@), p);
            0 <= i < subregions@.len() && accepts(subregions@[i], p, limit)
        },
    }
}

/// The points of `pts` at the indices `idx`, in order.
pub open spec fn pick<P>(pts: Seq<P>, idx: Seq<usize>) -> Seq<P> {
    idx.map_values(|i: usize| pts[i as int])
}

/// Index of the first region in `rs` that contains `p`, or the number of
/// regions when none does.
fn first_region<R: Region<P>, P>(rs: &Vec<R>, p: &P) -> (i: usize)
    ensures
        i == first_containing(rs@, *p),
{
    let mut i: usize = 0;
    while i < rs.len()
        invariant
            0 <= i <= rs@.len(),
            forall|j: int| 0 <= j < i ==> !#[trigger] rs@[j].spec_contains(*p),
        decreases rs@.len() - i,
    {
        if rs[i].contains(p) {
            proof {
                lemma_first_containing(rs@, *p, i as int);
            }
            return i;
        }
        i = i + 1;
    }
    proof {
        lemma_first_containing(rs@, *p, i as int);
    }
    i
}

/// Whether a bucket over `region` holding the points of `pts` at `idx`
/// would take `p`, splitting as long as its region divides.
fn bucket_takes<R: Region<P>, P>(region: &R, pts: &Vec<P>, idx: Vec<usize>, limit: u8, p: &P) -> (r:
    bool)
    requires
        forall|k: int| 0 <= k < idx@.len() ==> #[trigger] idx@[k] < pts@.len(),
    ensures
        r == bucket_accepts(*region, pick(pts@, idx@), limit as nat, *p),
    decreases region.extent(),
{
    if idx.len() < limit as usize {
        return true;
    }
    if !region.divisible() {
        return false;
    }
    let kids = region.split();
    proof {
        region.lemma_split_covers();
    }
    let c = first_region(&kids, p);
    if c >= kids.len() {
        return false;
    }
    let ghost f = routes_to(kids@, c as int);
    let mut sub: Vec<usize> = Vec::new();
    let mut k: usize = 0;
    while k < idx.len()
        invariant
            0 <= k <= idx@.len(),
            forall|m: int| 0 <= m < idx@.len() ==> #[trigger] idx@[m] < pts@.len(),
            forall|m: int| 0 <= m < sub@.len() ==> #[trigger] sub@[m] < pts@.len(),
            pick(pts@, sub@) == pick(pts@, idx@.subrange(0, k as int)).filter(f),
            f == routes_to(kids@, c as int),
        decreases idx@.len() - k,
    {
        let i = idx[k];
        let j = first_region(&kids, &pts[i]);
        let ghost before = sub@;
        if j == c {
            sub.push(i);
        }
        proof {
            let s0 = pick(pts@, idx@.subrange(0, k as int));
            let s1 = pick(pts@, idx@.subrange(0, k + 1));
            assert(s1.drop_last() =~= s0);
            assert(s1.last() == pts@[i as int]);
            reveal(Seq::filter);
            assert(f(pts@[i as int]) == (j == c));
            if j == c {
                assert(pick(pts@, sub@) =~= pick(pts@, before).push(pts@[i as int]));
            } else {
                assert(pick(pts@, sub@) =~= pick(pts@, before));
            }
        }
        k = k + 1;
    }
    assert(idx@.subrange(0, idx@.len() as int) =~= idx@);
    bucket_takes(&kids[c], pts, sub, limit, p)
}

/// Whether inserting `p` into the subtree `node` would store it.
pub fn node_takes<R: Region<P>, P>(node: &Node<R, P>, p: &P, Ghost(limit): Ghost<nat>) -> (r: bool)
    requires
        node.wf(limit),
    ensures
        r == accepts(*node, *p, limit),
    decreases node,
{
    if !node.region.contains(p) {
        return false;
    }
    match &node.kind {
        Kind::Bucket { points, bucket_limit } => bucket_takes(
            &node.region,
            points,
            all_indices(points),
            *bucket_limit,
            p,
        ),
        Kind::Branch { subregions } => {
            let i = first_child(subregions, p);
            if i >= subregions.len() {
                return false;
            }
            node_takes(&subregions[i], p, Ghost(limit))
        },
    }
}

/// A point whose lookup reaches a bucket with room is taken.
pub proof fn lemma_room_accepts<R: Region<P>, P>(n: Node<R, P>, p: P, limit: nat)
    requires
        n.wf(limit),
        has_room(n, p, limit),
    ensures
        accepts(n, p, limit),
    decreases n,
{
    match n.kind {
        Kind::Bucket { .. } => {},
        Kind::Branch { subregions } => {
            let i = first_containing(regions_of(subregions@), p);
            lemma_room_accepts(subregions@[i], p, limit);
        },
    }
}

/// The indices of `pts`, in order.
fn all_indices<P>(pts: &Vec<P>) -> (idx: Vec<usize>)
    ensures
        pick(pts@, idx@) == pts@,
        forall|k: int| 0 <= k < idx@.len() ==> #[trigger] idx@[k] < pts@.len(),
{
    let mut idx: Vec<usize> = Vec::new();
    let mut k: usize = 0;
    while k < pts.len()
        invariant
            0 <= k <= pts@.len(),
            idx@.len() == k,
            forall|m: int| 0 <= m < k ==> #[trigger] idx@[m] == m,
        decreases pts@.len() - k,
    {
        idx.push(k);
        k = k + 1;
    }
    assert(pick(pts@, idx@) =~= pts@);
    idx
}

/// `n` is what a bucket over `region` holding `pts` becomes when `p` is
/// inserted: the bucket with `p` appended when it has room; else a branch
/// over the region's split whose children are buckets holding the points
/// routed to them, in order, but for the child that `p` goes to, which is
/// what that child's bucket becomes when `p` is inserted.
pub open spec fn placed<R: Region<P>, P>(region: R, pts: Seq<P>, limit: nat, n: Node<R, P>, p: P) -> bool
    decreases region.extent(),
{
    n.region == region && if pts.len() < limit {
        n.kind is Bucket && n.kind->points@ == pts.push(p) && n.kind->bucket_limit as nat == limit
    } else {
        region.extent() > 0 && n.kind is Branch && {
            let kids = region.spec_split();
            let ch = n.kind->subregions@;
            let c = first_containing(kids, p);
            regions_of(ch) == kids && 0 <= c < kids.len() && kids[c].extent() < region.extent()
                && (forall|j: int|
                0 <= j < ch.len() && j != c ==> (#[trigger] ch[j]).kind is Bucket
                    && ch[j].kind->points@ == pts.filter(routes_to(kids, j))
                    && ch[j].kind->bucket_limit as nat == limit) && placed(
                kids[c],
                pts.filter(routes_to(kids, c)),
                limit,
                ch[c],
                p,
            )
        }
    }
}

/// `new` is what the subtree `old` becomes when `p` is inserted: the
/// bucket that `p` is routed to becomes what `placed` describes, and every
/// other node stays as it was.
pub open spec fn inserted<R: Region<P>, P>(old: Node<R, P>, new: Node<R, P>, p: P, limit: nat) -> bool
    decreases old,
{
    match old.kind {
        Kind::Bucket { points, .. } => placed(old.region, points@, limit, new, p),
        Kind::Branch { subregions } => {
            let o = subregions@;
            let ch = new.kind->subregions@;
            let i = first_containing(regions_of(o), p);
            new.region == old.region && new.kind is Branch && ch.len() == o.len() && 0 <= i
                < o.len() && (forall|j: int|
                0 <= j < o.len() && j != i ==> #[trigger] ch[j] == o[j]) && inserted(
                o[i],
                ch[i],
                p,
                limit,
            )
        },
    }
}

/// A point stored before an insert is still found by its own lookup after.
pub proof fn lemma_placed_reaches<R: Region<P>, P>(
    region: R,
    pts: Seq<P>,
    limit: nat,
    n: Node<R, P>,
    p: P,
    q: P,
)
    requires
        placed(region, pts, limit, n, p),
        region.spec_contains(q),
        pts.contains(q),
    ensures
        reaches(n, q),
    decreases region.extent(),
{
    if pts.len() < limit {
        assert(n.points() == pts.push(p));
        let k = choose|k: int| 0 <= k < pts.len() && pts[k] == q;
        assert(pts.push(p)[k] == q);
        assert(n.nearby_spec(q) == Some(n.points()));
        assert(n.points().contains(q));
    } else {
        let kids = region.spec_split();
        let ch = n.kind->subregions@;
        let c = first_containing(kids, p);
        region.lemma_split_covers();
        lemma_first_containing_bounds(kids, q);
        let d = first_containing(kids, q);
        if d == kids.len() {
            let w = choose|w: int| 0 <= w < kids.len() && kids[w].spec_contains(q);
            assert(!kids[w].spec_contains(q));
        }
        assert(regions_of(ch)[d] == ch[d].region);
        assert(first_containing(regions_of(ch), q) == d);
        let k = choose|k: int| 0 <= k < pts.len() && pts[k] == q;
        assert(routes_to(kids, d)(pts[k]));
        pts.lemma_filter_contains(routes_to(kids, d), k);
        assert(n.nearby_spec(q) == ch[d].nearby_spec(q));
        if d != c {
            assert(ch[d].kind is Bucket);
            assert(ch[d].region == kids[d]);
            assert(ch[d].nearby_spec(q) == Some(ch[d].kind->points@));
        } else {
            lemma_placed_reaches(kids[c], pts.filter(routes_to(kids, c)), limit, ch[c], p, q);
        }
    }
}

/// Every point that a lookup finds before an insert is found after it.
pub proof fn lemma_inserted_reaches<R: Region<P>, P>(
    old: Node<R, P>,
    new: Node<R, P>,
    p: P,
    q: P,
    limit: nat,
)
    requires
        inserted(old, new, p, limit),
        reaches(old, q),
    ensures
        reaches(new, q),
    decreases old,
{
    match old.kind {
        Kind::Bucket { points, .. } => {
            lemma_placed_reaches(old.region, points@, limit, new, p, q);
        },
        Kind::Branch { subregions } => {
            let o = subregions@;
            let ch = new.kind->subregions@;
            let i = first_containing(regions_of(o), p);
            let d = first_containing(regions_of(o), q);
            lemma_inserted_region(o[i], ch[i], p, limit);
            assert forall|j: int| 0 <= j < o.len() implies #[trigger] ch[j].region == o[j].region by {
                if j != i {
                    assert(ch[j] == o[j]);
                }
            }
            assert(regions_of(ch) =~= regions_of(o));
            if d != i {
                assert(ch[d] == o[d]);
            } else {
                lemma_inserted_reaches(o[i], ch[i], p, q, limit);
            }
        },
    }
}

/// An insert keeps the subtree's region.
pub proof fn lemma_inserted_region<R: Region<P>, P>(old: Node<R, P>, new: Node<R, P>, p: P, limit: nat)
    requires
        inserted(old, new, p, limit),
    ensures
        new.region == old.region,
{
}

/// Insert `p` into child `i` of `children`, which takes it.
pub fn insert_child<R: Region<P>, P>(
    children: &mut Vec<Node<R, P>>,
    i: usize,
    p: P,
    Ghost(limit): Ghost<nat>,
    Ghost(bound): Ghost<nat>,
)
    requires
        i < old(children)@.len(),
        old(children)@[i as int].wf(limit),
        old(children)@[i as int].region.extent() < bound,
        accepts(old(children)@[i as int], p, limit),
    ensures
        final(children)@ == old(children)@.update(i as int, final(children)@[i as int]),
        final(children)@[i as int].wf(limit),
        final(children)@[i as int].region == old(children)@[i as int].region,
        inserted(old(children)@[i as int], final(children)@[i as int], p, limit),
        reaches(final(children)@[i as int], p),
        forest_points(final(children)@, final(children)@.len() as int).to_multiset()
            == forest_points(old(children)@, old(children)@.len() as int).to_multiset().insert(p),
    decreases bound, 0int, 0int,
{
    let ghost old_kids = children@;
    let child = children.remove(i);
    let new_child = insert_node(child, p, Ghost(limit));
    children.insert(i, new_child);
    proof {
        let new_kids = children@;
        let len = old_kids.len() as int;
        assert(new_kids =~= old_kids.update(i as int, new_child));
        lemma_forest_update(old_kids, i as int, new_child, len);
        let f = forest_points(new_kids, len).to_multiset();
        let g = forest_points(old_kids, len).to_multiset();
        let oc = old_kids[i as int].points().to_multiset();
        assert forall|v: P| #[trigger] f.count(v) == g.insert(p).count(v) by {
            assert(f.add(oc).count(v) == g.add(oc.insert(p)).count(v));
        }
        assert(f =~= g.insert(p));
    }
}

/// Insert `p` into the subtree `node`, which takes it, and return the new
/// subtree.
///
/// The point goes to the first child whose region contains it, at every
/// level, and is appended to the bucket it reaches. A full bucket is
/// replaced by a branch over its region's split, its points are reinserted
/// in order, and then `p` is inserted.
pub fn insert_node<R: Region<P>, P>(node: Node<R, P>, p: P, Ghost(limit): Ghost<nat>) -> (res: Node<
    R,
    P,
>)
    requires
        node.wf(limit),
        accepts(node, p, limit),
    ensures
        res.wf(limit),
        res.region == node.region,
        res.points().to_multiset() == node.points().to_multiset().insert(p),
        reaches(res, p),
        inserted(node, res, p, limit),
    decreases node.region.extent(), if node.is_bucket() {
        1int
    } else {
        0int
    }, 1int,
{
    let ghost gnode = node;
    let Node { region, kind } = node;
    match kind {
        Kind::Bucket { mut points, bucket_limit } => {
            if points.len() < bucket_limit as usize {
                points.push(p);
                let n = Node { region, kind: Kind::Bucket { points, bucket_limit } };
                assert(n.points() == node.points().push(p));
                proof {
                    lemma_within_mset(region, node.points(), n.points(), p);
                }
                assert(n.nearby_spec(p) == Some(n.points()));
                assert(n.points().last() == p);
                n
            } else {
                split_and_insert(region, points, bucket_limit, p)
            }
        },
        Kind::Branch { mut subregions } => {
            let i = first_child(&subregions, &p);
            let ghost old_kids = subregions@;
            assert(gnode.kind->subregions@ == old_kids);
            assert(old_kids[i as int].wf(limit));
            insert_child(&mut subregions, i, p, Ghost(limit), Ghost(region.extent()));
            let ghost new_kids = subregions@;
            let n = Node { region, kind: Kind::Branch { subregions } };
            proof {
                let len = old_kids.len() as int;
                assert(regions_of(new_kids) =~= regions_of(old_kids));
                assert forall|k: int| 0 <= k < new_kids.len() implies (#[trigger] new_kids[k]).region.extent()
                    < region.extent() && new_kids[k].wf(limit) by {
                    if k != i {
                        assert(new_kids[k] == old_kids[k]);
                    }
                }
                assert(n.points() == forest_points(new_kids, len));
                assert(node.points() == forest_points(old_kids, len));
                lemma_within_mset(region, node.points(), n.points(), p);
                assert(regions_of(new_kids)[i as int] == new_kids[i as int].region);
                assert(first_containing(regions_of(new_kids), p) == i);
            }
            n
        },
    }
}

/// Replace a full bucket over `region` by a branch over the region's split
/// with fresh buckets, reinsert the bucket's points in order and then
/// insert `p`.
pub fn split_and_insert<R: Region<P>, P>(region: R, points: Vec<P>, bucket_limit: u8, p: P) -> (res:
    Node<R, P>)
    requires
        region.spec_contains(p),
        points@.len() == bucket_limit,
        all_within(region, points@),
        bucket_accepts(region, points@, bucket_limit as nat, p),
    ensures
        res.wf(bucket_limit as nat),
        res.region == region,
        res.kind is Branch,
        regions_of(res.kind->subregions@) == region.spec_split(),
        res.points().to_multiset() == points@.to_multiset().insert(p),
        reaches(res, p),
        placed(region, points@, bucket_limit as nat, res, p),
    decreases region.extent(), 1int, 0int,
{
    let ghost limit = bucket_limit as nat;
    let ghost all = points@;
    let mut points = points;
    let mut kids = region.split();
    proof {
        region.lemma_split_covers();
    }
    let ghost split = region.spec_split();
    let mut children: Vec<Node<R, P>> = Vec::new();
    while kids.len() > 0
        invariant
            regions_of(children@) + kids@ == split,
            forall|k: int|
                0 <= k < children@.len() ==> (#[trigger] children@[k]).is_bucket()
                    && children@[k].points().len() == 0 && children@[k].kind->bucket_limit
                    == bucket_limit,
        decreases kids@.len(),
    {
        let r = kids.remove(0);
        let ghost before = children@;
        children.push(Node { region: r, kind: Kind::Bucket { points: Vec::new(), bucket_limit } });
        assert(regions_of(children@) =~= regions_of(before).push(r));
    }
    assert(regions_of(children@) =~= split);
    proof {
        lemma_forest_empty(children@, children@.len() as int);
    }
    while points.len() > 0
        invariant
            regions_of(children@) == split,
            forall|k: int|
                0 <= k < children@.len() ==> (#[trigger] children@[k]).is_bucket()
                    && children@[k].wf(limit) && children@[k].points().len() + points@.len()
                    <= all.len() && children@[k].points() == all.subrange(
                    0,
                    all.len() - points@.len(),
                ).filter(routes_to(split, k)),
            points@ == all.subrange(all.len() - points@.len(), all.len() as int),
            forest_points(children@, children@.len() as int).to_multiset().add(
                points@.to_multiset(),
            ) == all.to_multiset(),
            all_within(region, points@),
            all.len() <= limit,
            split.len() >= 1,
            forall|q: P| #[trigger]
                region.spec_contains(q) ==> exists|i: int|
                    0 <= i < split.len() && split[i].spec_contains(q),
        decreases points@.len(),
    {
        let ghost rest = points@;
        let q = points.remove(0);
        assert(rest[0] == q);
        assert(region.spec_contains(rest[0]));
        let j = first_child(&children, &q);
        proof {
            lemma_first_containing_bounds(split, q);
            if j == children@.len() {
                let w = choose|w: int| 0 <= w < split.len() && split[w].spec_contains(q);
                assert(!split[w].spec_contains(q));
            }
            assert(regions_of(children@)[j as int] == children@[j as int].region);
        }
        let ghost old_kids = children@;
        let Node { region: cr, kind } = children.remove(j);
        match kind {
            Kind::Bucket { points: mut bucket, bucket_limit: bl } => {
                bucket.push(q);
                let x = Node { region: cr, kind: Kind::Bucket { points: bucket, bucket_limit: bl } };
                children.insert(j, x);
                proof {
                    let len = old_kids.len() as int;
                    assert(children@ =~= old_kids.update(j as int, x));
                    lemma_forest_update(old_kids, j as int, x, len);
                    assert(regions_of(children@) =~= regions_of(old_kids));
                    assert(x.points() == old_kids[j as int].points().push(q));
                    assert(all_within(cr, x.points())) by {
                        assert(x.points().last() == q);
                    }
                    assert(rest =~= seq![q] + points@);
                    lemma_multiset_commutative(seq![q], points@);
                    assert(seq![q].to_multiset() =~= Seq::<P>::empty().push(q).to_multiset());
                    let placed = all.len() - rest.len();
                    let before = all.subrange(0, placed);
                    let after = all.subrange(0, placed + 1);
                    assert(after.drop_last() =~= before);
                    assert(after.last() == q);
                    assert(points@ =~= all.subrange(all.len() - points@.len(), all.len() as int));
                    assert forall|k: int| 0 <= k < children@.len() implies (
                    #[trigger] children@[k]).is_bucket() && children@[k].wf(limit)
                        && children@[k].points().len() + points@.len() <= all.len()
                        && children@[k].points() == after.filter(routes_to(split, k)) by {
                        reveal(Seq::filter);
                        if k != j {
                            assert(children@[k] == old_kids[k]);
                            assert(!routes_to(split, k)(q));
                        } else {
                            assert(routes_to(split, k)(q));
                        }
                    }
                    let f = forest_points(children@, len).to_multiset();
                    let g = forest_points(old_kids, len).to_multiset();
                    let oj = old_kids[j as int].points().to_multiset();
                    assert forall|v: P| #[trigger] f.count(v) == g.insert(q).count(v) by {
                        assert(f.add(oj).count(v) == g.add(oj.insert(q)).count(v));
                    }
                    assert(rest.to_multiset() =~= points@.to_multiset().insert(q));
                    assert(f.add(points@.to_multiset()) =~= g.add(rest.to_multiset()));
                    assert forall|k: int| 0 <= k < points@.len() implies region.spec_contains(
                        #[trigger] points@[k],
                    ) by {
                        assert(points@[k] == rest[k + 1]);
                    }
                }
            },
            Kind::Branch { subregions } => {
                assert(false);
                children.insert(j, Node { region: cr, kind: Kind::Branch { subregions } });
            },
        }
    }
    let branch = Node { region, kind: Kind::Branch { subregions: children } };
    proof {
        assert(points@ =~= Seq::<P>::empty());
        assert(points@.to_multiset() =~= Multiset::<P>::empty());
        let f = forest_points(children@, children@.len() as int).to_multiset();
        assert(f.add(Multiset::<P>::empty()) =~= f);
        assert(branch.points() == forest_points(children@, children@.len() as int));
        assert forall|k: int| 0 <= k < children@.len() implies children@[k].region.extent()
            < region.extent() && #[trigger] children@[k].wf(limit) by {
            assert(regions_of(children@)[k] == children@[k].region);
        }
        lemma_within_mset(region, all, branch.points(), p);
        assert(all.subrange(0, all.len() as int) =~= all);
        let c = first_containing(split, p);
        lemma_first_containing_bounds(split, p);
        if c == split.len() {
            let w = choose|w: int| 0 <= w < split.len() && split[w].spec_contains(p);
            assert(!split[w].spec_contains(p));
        }
        assert(children@[c].region == split[c]);
        region.lemma_split_covers();
        assert(split[c].extent() < region.extent());
        assert(branch.wf(limit));
        assert(children@[c].points() == all.filter(routes_to(split, c)));
        assert(accepts(children@[c], p, limit) == bucket_accepts(
            split[c],
            all.filter(routes_to(split, c)),
            limit,
            p,
        ));
        assert(first_containing(regions_of(children@), p) == c);
    }
    let res = insert_node(branch, p, Ghost(limit));
    proof {
        let ch = res.kind->subregions@;
        let c = first_containing(split, p);
        assert(region.extent() > 0);
        assert(first_containing(regions_of(children@), p) == c);
        assert(inserted(children@[c], ch[c], p, limit));
        assert(children@[c].region == split[c]);
        assert(children@[c].kind->points@ == all.filter(routes_to(split, c)));
        assert(placed(split[c], all.filter(routes_to(split, c)), limit, ch[c], p));
        assert forall|j: int| 0 <= j < ch.len() implies #[trigger] ch[j].region == split[j] by {
            assert(regions_of(children@)[j] == children@[j].region);
        }
        assert(regions_of(ch) =~= split);
        assert forall|j: int| 0 <= j < ch.len() && j != c implies (#[trigger] ch[j]).kind is Bucket
            && ch[j].kind->points@ == all.filter(routes_to(split, j))
            && ch[j].kind->bucket_limit as nat == limit by {
            assert(ch[j] == children@[j]);
        }
    }
    res
}


/// A forest of empty nodes holds no points.
pub proof fn lemma_forest_empty<R: Region<P>, P>(s: Seq<Node<R, P>>, n: int)
    requires
        0 <= n <= s.len(),
        forall|k: int| 0 <= k < s.len() ==> (#[trigger] s[k]).is_bucket() && s[k].points().len() == 0,
    ensures
        forest_points(s, n) == Seq::<P>::empty(),
    decreases n,
{
    if n > 0 {
        lemma_forest_empty(s, n - 1);
        assert(s[n - 1].points() =~= Seq::<P>::empty());
        assert(forest_points(s, n) =~= Seq::<P>::empty());
    }
}

} // verus!
