use vstd::prelude::*;

use crate::node::{all_within, forest_points, Kind, Node};
use crate::region::Region;

verus! {

/// The points of subtree `n` that a range query for `q` yields: pruned
/// where the regions do not overlap, filtered by `q` in the buckets.
pub open spec fn node_query<R: Region<P>, P>(n: Node<R, P>, q: R) -> Seq<P>
    decreases n, 0int,
{
    if !n.region.spec_overlaps(q) {
        Seq::empty()
    } else {
        match n.kind {
            Kind::Bucket { points, .. } => points@.filter(inside(q)),
            Kind::Branch { subregions } => forest_query(
                subregions@,
                subregions@.len() as int,
                q,
            ),
        }
    }
}

/// The points that `q` contains, as a filter.
pub open spec fn inside<R: Region<P>, P>(q: R) -> spec_fn(P) -> bool {
    |x: P| q.spec_contains(x)
}

/// What a range query for `q` yields from the first `n` nodes of `s`.
pub open spec fn forest_query<R: Region<P>, P>(s: Seq<Node<R, P>>, n: int, q: R) -> Seq<P>
    decreases s, n,
{
    if n <= 0 || n > s.len() {
        Seq::empty()
    } else {
        forest_query(s, n - 1, q) + node_query(s[n - 1], q)
    }
}

/// What a range query for `q` yields from the nodes of `s` from index `i` on.
pub open spec fn entry_query<R: Region<P>, P>(s: Seq<Node<R, P>>, i: int, q: R) -> Seq<P> {
    if 0 <= i <= s.len() {
        forest_query(s.subrange(i, s.len() as int), s.len() - i, q)
    } else {
        Seq::empty()
    }
}

/// The number of nodes and points in subtree `n`.
pub open spec fn node_size<R: Region<P>, P>(n: Node<R, P>) -> nat
    decreases n, 0int,
{
    match n.kind {
        Kind::Bucket { points, .. } => 1 + points@.len(),
        Kind::Branch { subregions } => 1 + forest_size(subregions@, 0),
    }
}

/// The number of nodes and points in the nodes of `s` from index `i` on.
pub open spec fn forest_size<R: Region<P>, P>(s: Seq<Node<R, P>>, i: int) -> nat
    decreases s, s.len() - i,
{
    if 0 <= i < s.len() {
        node_size(s[i]) + forest_size(s, i + 1)
    } else {
        0
    }
}

/// What the sibling sequences on the first `n` levels of a traversal
/// stack still yield, the top of the stack first.
pub open spec fn stack_query<R: Region<P>, P>(st: Seq<(&[Node<R, P>], usize)>, n: int, q: R) -> Seq<
    P,
>
    decreases n,
{
    if n <= 0 || n > st.len() {
        Seq::empty()
    } else {
        entry_query(st[n - 1].0@, st[n - 1].1 as int, q) + stack_query(st, n - 1, q)
    }
}

/// The work left in the first `n` levels of a traversal stack.
pub open spec fn stack_size<R: Region<P>, P>(st: Seq<(&[Node<R, P>], usize)>, n: int) -> nat
    decreases n,
{
    if n <= 0 || n > st.len() {
        0
    } else {
        forest_size(st[n - 1].0@, st[n - 1].1 as int) + stack_size(st, n - 1)
    }
}

proof fn lemma_stack_prefix<R: Region<P>, P>(
    a: Seq<(&[Node<R, P>], usize)>,
    b: Seq<(&[Node<R, P>], usize)>,
    n: int,
    q: R,
)
    requires
        0 <= n <= a.len(),
        n <= b.len(),
        forall|i: int| 0 <= i < n ==> a[i] == b[i],
    ensures
        stack_query(a, n, q) == stack_query(b, n, q),
        stack_size(a, n) == stack_size(b, n),
    decreases n,
{
    if n > 0 {
        lemma_stack_prefix(a, b, n - 1, q);
    }
}

/// A forest's query splits into its first node's and the rest's.
proof fn lemma_forest_query_first<R: Region<P>, P>(t: Seq<Node<R, P>>, n: int, q: R)
    requires
        1 <= n <= t.len(),
    ensures
        forest_query(t, n, q) == node_query(t[0], q) + forest_query(t.drop_first(), n - 1, q),
    decreases n,
{
    if n > 1 {
        lemma_forest_query_first(t, n - 1, q);
        assert(t.drop_first()[n - 2] == t[n - 1]);
        assert(forest_query(t, n, q) =~= node_query(t[0], q) + forest_query(
            t.drop_first(),
            n - 1,
            q,
        ));
    } else {
        assert(forest_query(t, 0, q) =~= Seq::<P>::empty());
        assert(forest_query(t, 1, q) =~= node_query(t[0], q));
        assert(forest_query(t.drop_first(), 0, q) =~= Seq::<P>::empty());
        assert(node_query(t[0], q) + Seq::<P>::empty() =~= node_query(t[0], q));
    }
}

proof fn lemma_entry_step<R: Region<P>, P>(s: Seq<Node<R, P>>, i: int, q: R)
    requires
        0 <= i < s.len(),
    ensures
        entry_query(s, i, q) == node_query(s[i], q) + entry_query(s, i + 1, q),
{
    let t = s.subrange(i, s.len() as int);
    lemma_forest_query_first(t, s.len() - i, q);
    assert(t.drop_first() =~= s.subrange(i + 1, s.len() as int));
}

proof fn lemma_entry_whole<R: Region<P>, P>(s: Seq<Node<R, P>>, q: R)
    ensures
        entry_query(s, 0, q) == forest_query(s, s.len() as int, q),
{
    assert(s.subrange(0, s.len() as int) =~= s);
}

/// No point of a sequence within `region` is inside a region `q` that
/// `region` does not overlap.
pub proof fn lemma_pruned<R: Region<P>, P>(region: R, s: Seq<P>, q: R)
    requires
        all_within(region, s),
        !region.spec_overlaps(q),
    ensures
        s.filter(inside(q)) == Seq::<P>::empty(),
{
    let f = s.filter(inside(q));
    if f.len() > 0 {
        let x = f[0];
        s.lemma_filter_pred(inside(q), 0);
        assert(f.contains(x));
        s.lemma_filter_contains_rev(inside(q), x);
        let k = choose|k: int| 0 <= k < s.len() && s[k] == x;
        assert(region.spec_contains(s[k]));
        region.lemma_overlaps_sound(&q, x);
    }
    assert(f =~= Seq::<P>::empty());
}

/// In a well-formed subtree the query yields exactly its points that `q`
/// contains, in order.
pub proof fn lemma_node_query<R: Region<P>, P>(n: Node<R, P>, q: R, limit: nat)
    requires
        n.wf(limit),
    ensures
        node_query(n, q) == n.points().filter(inside(q)),
    decreases n, 0int,
{
    if !n.region.spec_overlaps(q) {
        lemma_pruned(n.region, n.points(), q);
    } else {
        match n.kind {
            Kind::Bucket { .. } => {},
            Kind::Branch { subregions } => {
                lemma_forest_query(subregions@, subregions@.len() as int, q, limit);
            },
        }
    }
}

/// The query over the first `k` nodes of a well-formed forest yields
/// exactly their points that `q` contains, in order.
pub proof fn lemma_forest_query<R: Region<P>, P>(s: Seq<Node<R, P>>, k: int, q: R, limit: nat)
    requires
        0 <= k <= s.len(),
        forall|i: int| 0 <= i < s.len() ==> (#[trigger] s[i]).wf(limit),
    ensures
        forest_query(s, k, q) == forest_points(s, k).filter(inside(q)),
    decreases s, k,
{
    if k == 0 {
        assert(forest_points(s, 0).filter(inside(q)) =~= Seq::<P>::empty());
    } else {
        lemma_forest_query(s, k - 1, q, limit);
        lemma_node_query(s[k - 1], q, limit);
        Seq::filter_distributes_over_add(forest_points(s, k - 1), s[k - 1].points(), inside(q));
    }
}

/// A lazy range query: a traversal that yields, one call of `next` at a
/// time, the points of a tree that the query region contains.
///
/// It holds the points of the bucket being read with the position reached,
/// and a stack of sibling sequences to resume, each with the index of the
/// next sibling to visit.
pub struct RangeQuery<'t, 'q, R, P> {
    pub query: &'q R,
    pub points: &'t [P],
    pub pos: usize,
    pub stack: Vec<(&'t [Node<R, P>], usize)>,
}

impl<'t, 'q, R: Region<P>, P> RangeQuery<'t, 'q, R, P> {
    /// The query region.
    pub open spec fn query_region(&self) -> R {
        *self.query
    }

    /// The points that the traversal has still to yield, in order.
    pub open spec fn remaining(&self) -> Seq<P> {
        self.points@.subrange(self.pos as int, self.points@.len() as int).filter(
            inside(*self.query),
        ) + stack_query(self.stack@, self.stack@.len() as int, *self.query)
    }

    /// The traversal's positions are in range.
    pub open spec fn inv(&self) -> bool {
        self.pos <= self.points@.len() && forall|k: int|
            0 <= k < self.stack@.len() ==> (#[trigger] self.stack@[k]).1 <= self.stack@[k].0@.len()
    }

    closed spec fn measure(&self) -> nat {
        (self.points@.len() - self.pos) as nat + stack_size(self.stack@, self.stack@.len() as int)
    }

    /// A traversal of `nodes` for `query`.
    pub(crate) fn start(query: &'q R, nodes: &'t [Node<R, P>]) -> (r: Self)
        ensures
            r.inv(),
            r.query_region() == *query,
            r.remaining() == forest_query(nodes@, nodes@.len() as int, *query),
    {
        let empty: &'t [P] = &[];
        let r = RangeQuery { query, points: empty, pos: 0, stack: vec![(nodes, 0)] };
        proof {
            lemma_entry_whole(nodes@, *query);
            assert(r.points@.subrange(0, 0).filter(inside(*query)) =~= Seq::<P>::empty());
            assert(stack_query(r.stack@, 0, *query) =~= Seq::<P>::empty());
            assert(r.remaining() =~= forest_query(nodes@, nodes@.len() as int, *query));
        }
        r
    }

    /// The next point of the query, or `None` once the traversal is over.
    /// Each call does only the traversal work that finds that one point.
    pub fn next(&mut self) -> (r: Option<&'t P>)
        requires
            old(self).inv(),
        ensures
            final(self).inv(),
            final(self).query_region() == old(self).query_region(),
            old(self).remaining().len() == 0 ==> r is None && final(self).remaining().len() == 0,
            old(self).remaining().len() > 0 ==> (r matches Some(x) && *x == old(
                self,
            ).remaining()[0]),
            old(self).remaining().len() > 0 ==> final(self).remaining() == old(
                self,
            ).remaining().drop_first(),
    {
        let ghost start = self.remaining();
        assert(start == old(self).remaining());
        loop
            invariant
                self.inv(),
                self.query_region() == old(self).query_region(),
                self.remaining() == start,
                start == old(self).remaining(),
            decreases self.measure(), self.stack@.len(),
        {
            let pts: &'t [P] = self.points;
            if self.pos < pts.len() {
                let ghost rest = pts@.subrange(self.pos as int, pts@.len() as int);
                let ghost pred = inside(*self.query);
                let ghost sq = stack_query(self.stack@, self.stack@.len() as int, *self.query);
                let i = self.pos;
                self.pos = i + 1;
                proof {
                    let tail = pts@.subrange(i + 1, pts@.len() as int);
                    assert(rest =~= seq![pts@[i as int]] + tail);
                    tail.lemma_filter_prepend(pts@[i as int], pred);
                    assert(self.remaining() == tail.filter(pred) + sq);
                }
                if self.query.contains(&pts[i]) {
                    proof {
                        let tail = pts@.subrange(i + 1, pts@.len() as int);
                        assert(start =~= seq![pts@[i as int]] + (tail.filter(pred) + sq));
                        assert(start.drop_first() =~= self.remaining());
                    }
                    return Some(&pts[i]);
                }
            } else {
                let ghost before = self.stack@;
                let ghost m0 = self.measure();
                assert(self.points@.subrange(self.pos as int, self.points@.len() as int).filter(
                    inside(*self.query),
                ) =~= Seq::<P>::empty());
                assert(start =~= stack_query(before, before.len() as int, *self.query));
                match self.stack.pop() {
                    None => {
                        assert(start =~= Seq::<P>::empty());
                        return None;
                    },
                    Some(entry) => {
                        let (nodes, i) = entry;
                        let ghost rest = self.stack@;
                        proof {
                            assert(before =~= rest.push(entry));
                            lemma_stack_prefix(before, rest, rest.len() as int, *self.query);
                        }
                        if i >= nodes.len() {
                            assert(forest_size(nodes@, i as int) == 0);
                            assert(self.measure() == m0);
                        }
                        if i < nodes.len() {
                            let node = &nodes[i];
                            self.stack.push((nodes, i + 1));
                            proof {
                                lemma_entry_step(nodes@, i as int, *self.query);
                                lemma_stack_prefix(
                                    self.stack@,
                                    rest,
                                    rest.len() as int,
                                    *self.query,
                                );
                                assert(forest_size(nodes@, i as int) == node_size(nodes@[i as int])
                                    + forest_size(nodes@, i + 1));
                                assert(self.measure() + node_size(nodes@[i as int]) == m0);
                            }
                            if node.region.overlaps(self.query) {
                                match &node.kind {
                                    Kind::Bucket { points, .. } => {
                                        self.points = points.as_slice();
                                        self.pos = 0;
                                        assert(points@.subrange(0, points@.len() as int)
                                            =~= points@);
                                        assert(self.measure() < m0);
                                    },
                                    Kind::Branch { subregions } => {
                                        let ghost mid = self.stack@;
                                        self.stack.push((subregions.as_slice(), 0));
                                        proof {
                                            lemma_entry_whole(subregions@, *self.query);
                                            lemma_stack_prefix(
                                                self.stack@,
                                                mid,
                                                mid.len() as int,
                                                *self.query,
                                            );
                                            assert(self.measure() < m0);
                                        }
                                    },
                                }
                            }
                        }
                    },
                }
            }
        }
    }
}

} // verus!