//! What the rebuild circuit computes.
//!
//! The circuit holds view rows and union edges. Its recursive stream is the relation of ids that
//! are connected by edges; the least id that an id is connected to leads it. View rows are
//! rewritten to leaders, and two rows that then have the same arguments and different outputs are
//! a congruence: an edge that goes back into the circuit. The functions here are the steps of the
//! streams on single rows.
use crate::feldera::uf::{after_unions, unions_keep_leader_fn, unions_unite};
use vstd::prelude::*;

verus! {

/// A view row: tag, two arguments and output.
pub type ViewRow = (u64, u64, u64, u64);

/// Stands for no pair.
pub const NO_PAIR: u64 = 0xffff_ffff_ffff_ffff;

/// An edge in both directions.
pub fn both_ways(a: u64, b: u64) -> (v: Vec<(u64, u64)>)
    ensures
        v@ == seq![(a, b), (b, a)],
{
    let mut v: Vec<(u64, u64)> = Vec::new();
    v.push((a, b));
    v.push((b, a));
    assert(v@ =~= seq![(a, b), (b, a)]);
    v
}

/// Each id of a view row, connected to itself.
pub fn self_pairs(row: ViewRow) -> (v: Vec<(u64, u64)>)
    ensures
        v@ == seq![(row.1, row.1), (row.2, row.2), (row.3, row.3)],
{
    let mut v: Vec<(u64, u64)> = Vec::new();
    v.push((row.1, row.1));
    v.push((row.2, row.2));
    v.push((row.3, row.3));
    assert(v@ =~= seq![(row.1, row.1), (row.2, row.2), (row.3, row.3)]);
    v
}

/// The pair of `x` and `y`, where `x` is also connected to the smaller `z`, so that `y` does not
/// lead it.
pub fn dominated_pair(x: u64, y: u64, z: u64) -> (p: (u64, u64))
    ensures
        p == if z < y {
            (x, y)
        } else {
            (NO_PAIR, NO_PAIR)
        },
{
    if z < y {
        (x, y)
    } else {
        (NO_PAIR, NO_PAIR)
    }
}

/// Whether there is a pair.
pub fn is_pair(x: u64) -> (b: bool)
    ensures
        b == (x != NO_PAIR),
{
    x != NO_PAIR
}

/// The row with another first argument.
pub fn with_first(row: ViewRow, l: u64) -> (r: ViewRow)
    ensures
        r == (row.0, l, row.2, row.3),
{
    (row.0, l, row.2, row.3)
}

/// The row with another second argument.
pub fn with_second(row: ViewRow, l: u64) -> (r: ViewRow)
    ensures
        r == (row.0, row.1, l, row.3),
{
    (row.0, row.1, l, row.3)
}

/// The row with another output.
pub fn with_output(row: ViewRow, l: u64) -> (r: ViewRow)
    ensures
        r == (row.0, row.1, row.2, l),
{
    (row.0, row.1, row.2, l)
}

/// The congruence of two outputs, the smaller first.
pub fn congruence_pair(o1: u64, o2: u64) -> (p: (u64, u64))
    ensures
        p == if o1 < o2 {
            (o1, o2)
        } else {
            (NO_PAIR, NO_PAIR)
        },
{
    if o1 < o2 {
        (o1, o2)
    } else {
        (NO_PAIR, NO_PAIR)
    }
}

/// The rows whose weight is above zero.
pub open spec fn present<A>(rows: Seq<(A, i64)>) -> Seq<A>
    decreases rows.len(),
{
    if rows.len() == 0 {
        Seq::empty()
    } else if rows.last().1 > 0 {
        present(rows.drop_last()).push(rows.last().0)
    } else {
        present(rows.drop_last())
    }
}

/// The rows of an output whose weight is above zero.
pub fn present_rows<A: Copy>(rows: &Vec<(A, i64)>) -> (v: Vec<A>)
    ensures
        v@ == present(rows@),
{
    let mut v: Vec<A> = Vec::new();
    let n: usize = rows.len();
    for i in 0..n
        invariant
            n == rows@.len(),
            v@ == present(rows@.take(i as int)),
    {
        assert(rows@.take(i + 1).drop_last() =~= rows@.take(i as int));
        assert(rows@.take(i + 1).last() == rows@[i as int]);
        if rows[i].1 > 0 {
            v.push(rows[i].0);
        }
    }
    assert(rows@.take(n as int) =~= rows@);
    v
}

/// Whether there is an edge between two ids, in one direction or the other.
pub open spec fn adjacent(edges: Set<(int, int)>, x: int, y: int) -> bool {
    edges.contains((x, y)) || edges.contains((y, x))
}

/// Whether each id of a path is adjacent to the next.
pub open spec fn is_path(edges: Set<(int, int)>, path: Seq<int>) -> bool {
    &&& path.len() > 0
    &&& forall|i: int|
        0 <= i < path.len() - 1 ==> adjacent(edges, #[trigger] path[i], path[i + 1])
}

/// Whether two ids are connected by edges.
pub open spec fn connected(edges: Set<(int, int)>, x: int, y: int) -> bool {
    exists|path: Seq<int>| #[trigger]
        is_path(edges, path) && path[0] == x && path.last() == y
}

/// Whether `l` leads `x`: it is the least id that `x` is connected to.
pub open spec fn leads_id(edges: Set<(int, int)>, x: int, l: int) -> bool {
    connected(edges, x, l) && forall|y: int| #[trigger] connected(edges, x, y) ==> l <= y
}

/// An id is connected to itself.
pub proof fn connected_reflexive(edges: Set<(int, int)>, x: int)
    ensures
        connected(edges, x, x),
{
    let p = seq![x];
    assert(is_path(edges, p));
}

/// A connection goes on over an edge.
proof fn lemma_connected_step(edges: Set<(int, int)>, x: int, y: int, z: int)
    requires
        connected(edges, x, y),
        adjacent(edges, y, z),
    ensures
        connected(edges, x, z),
{
    let p = choose|p: Seq<int>| #[trigger] is_path(edges, p) && p[0] == x && p.last() == y;
    let q = p.push(z);
    assert forall|i: int| 0 <= i < q.len() - 1 implies adjacent(
        edges,
        #[trigger] q[i],
        q[i + 1],
    ) by {
        if i < p.len() - 1 {
            assert(q[i] == p[i] && q[i + 1] == p[i + 1]);
        }
    }
    assert(is_path(edges, q));
}

/// Connections go on.
pub proof fn connected_transitive(edges: Set<(int, int)>, x: int, y: int, z: int)
    requires
        connected(edges, x, y),
        connected(edges, y, z),
    ensures
        connected(edges, x, z),
{
    let q = choose|q: Seq<int>| #[trigger] is_path(edges, q) && q[0] == y && q.last() == z;
    lemma_connected_along(edges, x, q, q.len() - 1);
}

proof fn lemma_connected_along(edges: Set<(int, int)>, x: int, q: Seq<int>, n: int)
    requires
        is_path(edges, q),
        connected(edges, x, q[0]),
        0 <= n < q.len(),
    ensures
        connected(edges, x, q[n]),
    decreases n,
{
    if n > 0 {
        lemma_connected_along(edges, x, q, n - 1);
        assert(adjacent(edges, q[n - 1], q[n - 1 + 1]));
        lemma_connected_step(edges, x, q[n - 1], q[n]);
    }
}

/// Connections go both ways.
pub proof fn connected_symmetric(edges: Set<(int, int)>, x: int, y: int)
    requires
        connected(edges, x, y),
    ensures
        connected(edges, y, x),
{
    let p = choose|p: Seq<int>| #[trigger] is_path(edges, p) && p[0] == x && p.last() == y;
    let q = p.reverse();
    assert forall|i: int| 0 <= i < q.len() - 1 implies adjacent(
        edges,
        #[trigger] q[i],
        q[i + 1],
    ) by {
        let k = p.len() - 2 - i;
        assert(adjacent(edges, p[k], p[k + 1]));
        assert(q[i] == p[k + 1] && q[i + 1] == p[k]);
    }
    assert(is_path(edges, q));
    assert(q[0] == y && q.last() == x);
}

/// The recursive stream's equation: an id is connected to itself, and over an edge to what follows
/// an id that it is connected to; nothing else connects.
pub proof fn reach_equation(edges: Set<(int, int)>, x: int, y: int)
    ensures
        connected(edges, x, y) <==> x == y || exists|z: int| #[trigger]
            connected(edges, x, z) && adjacent(edges, z, y),
{
    if x == y {
        connected_reflexive(edges, x);
    }
    if connected(edges, x, y) && x != y {
        let p = choose|p: Seq<int>| #[trigger] is_path(edges, p) && p[0] == x && p.last() == y;
        let front = p.drop_last();
        assert(p.len() >= 2);
        assert forall|i: int| 0 <= i < front.len() - 1 implies adjacent(
            edges,
            #[trigger] front[i],
            front[i + 1],
        ) by {
            assert(adjacent(edges, p[i], p[i + 1]));
        }
        assert(is_path(edges, front));
        let z = front.last();
        assert(connected(edges, x, z));
        assert(adjacent(edges, p[p.len() - 2], p[p.len() - 2 + 1]));
    }
    if exists|z: int| #[trigger] connected(edges, x, z) && adjacent(edges, z, y) {
        let z = choose|z: int| #[trigger] connected(edges, x, z) && adjacent(edges, z, y);
        lemma_connected_step(edges, x, z, y);
    }
}

/// The recursive stream is the least one: whatever holds of each id with itself, and goes on over
/// edges, holds of all the ids that are connected.
pub proof fn reach_is_least(
    edges: Set<(int, int)>,
    related: spec_fn(int, int) -> bool,
    x: int,
    y: int,
)
    requires
        forall|a: int| #[trigger] related(a, a),
        forall|a: int, b: int, c: int|
            #![trigger related(a, b), adjacent(edges, b, c)]
            related(a, b) && adjacent(edges, b, c) ==> related(a, c),
        connected(edges, x, y),
    ensures
        related(x, y),
{
    let p = choose|p: Seq<int>| #[trigger] is_path(edges, p) && p[0] == x && p.last() == y;
    lemma_related_along(edges, related, p, p.len() - 1);
}

proof fn lemma_related_along(
    edges: Set<(int, int)>,
    related: spec_fn(int, int) -> bool,
    p: Seq<int>,
    n: int,
)
    requires
        forall|a: int| #[trigger] related(a, a),
        forall|a: int, b: int, c: int|
            #![trigger related(a, b), adjacent(edges, b, c)]
            related(a, b) && adjacent(edges, b, c) ==> related(a, c),
        is_path(edges, p),
        0 <= n < p.len(),
    ensures
        related(p[0], p[n]),
    decreases n,
{
    if n > 0 {
        lemma_related_along(edges, related, p, n - 1);
        assert(adjacent(edges, p[n - 1], p[n - 1 + 1]));
    }
}

/// An id has one leader.
pub proof fn leader_is_unique(edges: Set<(int, int)>, x: int, l: int, m: int)
    requires
        leads_id(edges, x, l),
        leads_id(edges, x, m),
    ensures
        l == m,
{
}

/// Connected ids have the same leader.
pub proof fn connected_share_leader(edges: Set<(int, int)>, x: int, y: int, l: int)
    requires
        connected(edges, x, y),
        leads_id(edges, x, l),
    ensures
        leads_id(edges, y, l),
{
    connected_symmetric(edges, x, y);
    connected_transitive(edges, y, x, l);
    assert forall|z: int| #[trigger] connected(edges, y, z) implies l <= z by {
        connected_transitive(edges, x, y, z);
    }
}

/// A leader leads itself.
pub proof fn leader_leads_itself(edges: Set<(int, int)>, x: int, l: int)
    requires
        leads_id(edges, x, l),
    ensures
        leads_id(edges, l, l),
{
    connected_share_leader(edges, x, l, l);
}

/// A view row rewritten to leaders.
pub open spec fn is_canonical(
    edges: Set<(int, int)>,
    row: (int, int, int, int),
    c: (int, int, int, int),
) -> bool {
    &&& c.0 == row.0
    &&& leads_id(edges, row.1, c.1)
    &&& leads_id(edges, row.2, c.2)
    &&& leads_id(edges, row.3, c.3)
}

/// The view rows, each rewritten to leaders.
pub open spec fn canonical_rows(
    edges: Set<(int, int)>,
    views: Set<(int, int, int, int)>,
) -> Set<(int, int, int, int)> {
    Set::new(
        |c: (int, int, int, int)|
            exists|row: (int, int, int, int)| #[trigger]
                views.contains(row) && is_canonical(edges, row, c),
    )
}

/// The congruences: the outputs, the smaller first, of two canonical rows that agree otherwise.
pub open spec fn congruences(canon: Set<(int, int, int, int)>) -> Set<(int, int)> {
    Set::new(
        |p: (int, int)|
            p.0 < p.1 && exists|a: (int, int, int, int), b: (int, int, int, int)|
                #![trigger canon.contains(a), canon.contains(b)]
                canon.contains(a) && canon.contains(b) && a.0 == b.0 && a.1 == b.1 && a.2 == b.2
                    && a.3 == p.0 && b.3 == p.1,
    )
}

/// Where every congruence is among the edges, no two canonical rows agree in their tag and
/// arguments and differ in their output: the rebuild has reached its end.
pub proof fn closed_views_are_functional(
    edges: Set<(int, int)>,
    views: Set<(int, int, int, int)>,
    a: (int, int, int, int),
    b: (int, int, int, int),
)
    requires
        congruences(canonical_rows(edges, views)).subset_of(edges),
        canonical_rows(edges, views).contains(a),
        canonical_rows(edges, views).contains(b),
        a.0 == b.0,
        a.1 == b.1,
        a.2 == b.2,
    ensures
        a == b,
{
    let canon = canonical_rows(edges, views);
    let ra = choose|row: (int, int, int, int)| #[trigger]
        views.contains(row) && is_canonical(edges, row, a);
    let rb = choose|row: (int, int, int, int)| #[trigger]
        views.contains(row) && is_canonical(edges, row, b);
    leader_leads_itself(edges, ra.3, a.3);
    leader_leads_itself(edges, rb.3, b.3);
    if a.3 != b.3 {
        let p = if a.3 < b.3 {
            (a.3, b.3)
        } else {
            (b.3, a.3)
        };
        if a.3 < b.3 {
            assert(canon.contains(a) && canon.contains(b));
        } else {
            assert(canon.contains(b) && canon.contains(a));
        }
        assert(congruences(canon).contains(p));
        assert(edges.contains(p));
        connected_reflexive(edges, a.3);
        lemma_connected_step(edges, a.3, a.3, b.3);
        connected_share_leader(edges, a.3, b.3, a.3);
        leader_is_unique(edges, b.3, a.3, b.3);
    }
}

/// Whether a relation is an equivalence.
pub open spec fn is_equivalence(same: spec_fn(int, int) -> bool) -> bool {
    &&& forall|x: int| #[trigger] same(x, x)
    &&& forall|x: int, y: int| #[trigger] same(x, y) ==> same(y, x)
    &&& forall|x: int, y: int, z: int|
        #![trigger same(x, y), same(y, z)]
        same(x, y) && same(y, z) ==> same(x, z)
}

/// Whether a relation holds of the ends of every edge.
pub open spec fn respects(same: spec_fn(int, int) -> bool, edges: Set<(int, int)>) -> bool {
    forall|e: (int, int)| #[trigger] edges.contains(e) ==> same(e.0, e.1)
}

/// Whether a relation is closed under congruence: view rows with the same tag and related arguments
/// have related outputs.
pub open spec fn is_congruent(
    same: spec_fn(int, int) -> bool,
    views: Set<(int, int, int, int)>,
) -> bool {
    forall|r: (int, int, int, int), q: (int, int, int, int)|
        #![trigger views.contains(r), views.contains(q)]
        views.contains(r) && views.contains(q) && r.0 == q.0 && same(r.1, q.1) && same(r.2, q.2)
            ==> same(r.3, q.3)
}

/// Whether a relation is an equivalence that holds of the edges and is closed under congruence.
pub open spec fn is_congruence(
    same: spec_fn(int, int) -> bool,
    edges: Set<(int, int)>,
    views: Set<(int, int, int, int)>,
) -> bool {
    is_equivalence(same) && respects(same, edges) && is_congruent(same, views)
}

/// Whether every equivalence that holds of the edges and is closed under congruence holds of two
/// ids: the smallest such equivalence.
pub open spec fn forced(
    edges: Set<(int, int)>,
    views: Set<(int, int, int, int)>,
    x: int,
    y: int,
) -> bool {
    forall|same: spec_fn(int, int) -> bool| #[trigger]
        is_congruence(same, edges, views) ==> same(x, y)
}

/// Whether an id is the least of the class of `x` in the smallest equivalence that holds of the edges
/// and is closed under congruence.
pub open spec fn leads_class(
    edges: Set<(int, int)>,
    views: Set<(int, int, int, int)>,
    x: int,
    l: int,
) -> bool {
    forced(edges, views, x, l) && forall|y: int| #[trigger] forced(edges, views, x, y) ==> l <= y
}

/// Connected ids are related by every equivalence that holds of the edges.
proof fn lemma_connected_related(
    edges: Set<(int, int)>,
    same: spec_fn(int, int) -> bool,
    x: int,
    y: int,
)
    requires
        is_equivalence(same),
        respects(same, edges),
        connected(edges, x, y),
    ensures
        same(x, y),
{
    assert forall|a: int, b: int, c: int|
        #![trigger same(a, b), adjacent(edges, b, c)]
        same(a, b) && adjacent(edges, b, c) implies same(a, c) by {
        if edges.contains((b, c)) {
            assert(same(b, c));
        } else {
            assert(edges.contains((c, b)));
            assert(same(c, b));
            assert(same(b, c));
        }
    }
    reach_is_least(edges, same, x, y);
}

/// A congruence that the circuit gives is forced: it holds in every equivalence that holds of the
/// edges and is closed under congruence.
pub proof fn congruences_are_forced(
    edges: Set<(int, int)>,
    views: Set<(int, int, int, int)>,
    same: spec_fn(int, int) -> bool,
    p: (int, int),
)
    requires
        is_equivalence(same),
        respects(same, edges),
        is_congruent(same, views),
        congruences(canonical_rows(edges, views)).contains(p),
    ensures
        same(p.0, p.1),
{
    let canon = canonical_rows(edges, views);
    let (a, b) = choose|a: (int, int, int, int), b: (int, int, int, int)|
        #![trigger canon.contains(a), canon.contains(b)]
        canon.contains(a) && canon.contains(b) && a.0 == b.0 && a.1 == b.1 && a.2 == b.2 && a.3
            == p.0 && b.3 == p.1;
    let r = choose|row: (int, int, int, int)| #[trigger]
        views.contains(row) && is_canonical(edges, row, a);
    let q = choose|row: (int, int, int, int)| #[trigger]
        views.contains(row) && is_canonical(edges, row, b);
    lemma_connected_related(edges, same, r.1, a.1);
    lemma_connected_related(edges, same, r.2, a.2);
    lemma_connected_related(edges, same, r.3, a.3);
    lemma_connected_related(edges, same, q.1, b.1);
    lemma_connected_related(edges, same, q.2, b.2);
    lemma_connected_related(edges, same, q.3, b.3);
    assert(same(b.1, q.1) && same(b.2, q.2));
    assert(same(r.1, q.1) && same(r.2, q.2));
    assert(views.contains(r) && views.contains(q));
    assert(same(r.3, q.3));
    assert(same(a.3, r.3));
    assert(same(a.3, q.3));
    assert(same(a.3, b.3));
}

/// Whether all the edges are forced by some of them.
pub open spec fn edges_forced(
    seeds: Set<(int, int)>,
    views: Set<(int, int, int, int)>,
    edges: Set<(int, int)>,
) -> bool {
    forall|e: (int, int)| #[trigger] edges.contains(e) ==> forced(seeds, views, e.0, e.1)
}

/// Feeding congruences back adds only forced edges.
pub proof fn congruences_keep_edges_forced(
    seeds: Set<(int, int)>,
    views: Set<(int, int, int, int)>,
    edges: Set<(int, int)>,
)
    requires
        edges_forced(seeds, views, edges),
    ensures
        edges_forced(seeds, views, edges.union(congruences(canonical_rows(edges, views)))),
{
    let found = congruences(canonical_rows(edges, views));
    assert forall|e: (int, int)| #[trigger] edges.union(found).contains(e) implies forced(
        seeds,
        views,
        e.0,
        e.1,
    ) by {
        if !edges.contains(e) {
            assert forall|same: spec_fn(int, int) -> bool| #[trigger]
                is_congruence(same, seeds, views) implies same(e.0, e.1) by {
                assert forall|d: (int, int)| #[trigger] edges.contains(d) implies same(
                    d.0,
                    d.1,
                ) by {
                    assert(forced(seeds, views, d.0, d.1));
                }
                congruences_are_forced(edges, views, same, e);
            }
        }
    }
}

/// More seeds and more view rows keep forced edges forced.
pub proof fn more_input_keeps_edges_forced(
    seeds: Set<(int, int)>,
    views: Set<(int, int, int, int)>,
    edges: Set<(int, int)>,
    seeds2: Set<(int, int)>,
    views2: Set<(int, int, int, int)>,
)
    requires
        edges_forced(seeds, views, edges),
        seeds.subset_of(seeds2),
        views.subset_of(views2),
    ensures
        edges_forced(seeds2, views2, edges.union(seeds2)),
{
    assert forall|e: (int, int)| #[trigger] edges.union(seeds2).contains(e) implies forced(
        seeds2,
        views2,
        e.0,
        e.1,
    ) by {
        assert forall|same: spec_fn(int, int) -> bool| #[trigger]
            is_congruence(same, seeds2, views2) implies same(e.0, e.1) by {
            if edges.contains(e) {
                assert(is_congruence(same, seeds, views)) by {
                    assert forall|d: (int, int)| #[trigger] seeds.contains(d) implies same(
                        d.0,
                        d.1,
                    ) by {
                        assert(seeds2.contains(d));
                    }
                    assert forall|r: (int, int, int, int), q: (int, int, int, int)|
                        #![trigger views.contains(r), views.contains(q)]
                        views.contains(r) && views.contains(q) && r.0 == q.0 && same(r.1, q.1)
                            && same(r.2, q.2) implies same(r.3, q.3) by {
                        assert(views2.contains(r) && views2.contains(q));
                    }
                }
                assert(forced(seeds, views, e.0, e.1));
            } else {
                assert(seeds2.contains(e));
            }
        }
    }
}

/// Whether no id is below zero.
pub open spec fn from_zero(edges: Set<(int, int)>, views: Set<(int, int, int, int)>) -> bool {
    &&& forall|e: (int, int)| #[trigger] edges.contains(e) ==> 0 <= e.0 && 0 <= e.1
    &&& forall|r: (int, int, int, int)| #[trigger]
        views.contains(r) ==> 0 <= r.1 && 0 <= r.2 && 0 <= r.3
}

/// Where no id is below zero, every id has a leader.
proof fn lemma_has_leader(
    edges: Set<(int, int)>,
    views: Set<(int, int, int, int)>,
    x: int,
    y: int,
)
    requires
        from_zero(edges, views),
        0 <= x,
        connected(edges, x, y),
    ensures
        exists|l: int| leads_id(edges, x, l),
    decreases y,
{
    lemma_connected_from_zero(edges, views, x, y);
    if exists|z: int| #[trigger] connected(edges, x, z) && z < y {
        let z = choose|z: int| #[trigger] connected(edges, x, z) && z < y;
        lemma_connected_from_zero(edges, views, x, z);
        lemma_has_leader(edges, views, x, z);
    } else {
        assert(leads_id(edges, x, y));
    }
}

proof fn lemma_connected_from_zero(
    edges: Set<(int, int)>,
    views: Set<(int, int, int, int)>,
    x: int,
    y: int,
)
    requires
        from_zero(edges, views),
        0 <= x,
        connected(edges, x, y),
    ensures
        0 <= y,
{
    reach_equation(edges, x, y);
    if x != y {
        let z = choose|z: int| #[trigger] connected(edges, x, z) && adjacent(edges, z, y);
        if edges.contains((z, y)) {
        } else {
            assert(edges.contains((y, z)));
        }
    }
}

/// Once all congruences are among the edges, being connected is closed under congruence.
proof fn lemma_connected_congruent(
    edges: Set<(int, int)>,
    views: Set<(int, int, int, int)>,
    r: (int, int, int, int),
    q: (int, int, int, int),
)
    requires
        from_zero(edges, views),
        congruences(canonical_rows(edges, views)).subset_of(edges),
        views.contains(r),
        views.contains(q),
        r.0 == q.0,
        connected(edges, r.1, q.1),
        connected(edges, r.2, q.2),
    ensures
        connected(edges, r.3, q.3),
{
    connected_reflexive(edges, r.1);
    connected_reflexive(edges, r.2);
    connected_reflexive(edges, r.3);
    connected_reflexive(edges, q.3);
    lemma_has_leader(edges, views, r.1, r.1);
    lemma_has_leader(edges, views, r.2, r.2);
    lemma_has_leader(edges, views, r.3, r.3);
    lemma_has_leader(edges, views, q.3, q.3);
    let l1 = choose|l: int| leads_id(edges, r.1, l);
    let l2 = choose|l: int| leads_id(edges, r.2, l);
    let a3 = choose|l: int| leads_id(edges, r.3, l);
    let b3 = choose|l: int| leads_id(edges, q.3, l);
    connected_share_leader(edges, r.1, q.1, l1);
    connected_share_leader(edges, r.2, q.2, l2);
    let a = (r.0, l1, l2, a3);
    let b = (q.0, l1, l2, b3);
    assert(is_canonical(edges, r, a));
    assert(is_canonical(edges, q, b));
    assert(canonical_rows(edges, views).contains(a));
    assert(canonical_rows(edges, views).contains(b));
    closed_views_are_functional(edges, views, a, b);
    connected_symmetric(edges, q.3, b3);
    connected_transitive(edges, r.3, a3, q.3);
}

/// Once all congruences are among the edges, two ids are connected exactly where they are related by
/// the smallest equivalence that holds of the seeds and is closed under congruence.
pub proof fn closed_edges_are_smallest(
    seeds: Set<(int, int)>,
    views: Set<(int, int, int, int)>,
    edges: Set<(int, int)>,
    x: int,
    y: int,
)
    requires
        from_zero(edges, views),
        seeds.subset_of(edges),
        edges_forced(seeds, views, edges),
        congruences(canonical_rows(edges, views)).subset_of(edges),
    ensures
        connected(edges, x, y) <==> forced(seeds, views, x, y),
{
    if connected(edges, x, y) {
        assert forall|same: spec_fn(int, int) -> bool| #[trigger]
            is_congruence(same, seeds, views) implies same(x, y) by {
            assert forall|d: (int, int)| #[trigger] edges.contains(d) implies same(d.0, d.1) by {
                assert(forced(seeds, views, d.0, d.1));
            }
            lemma_connected_related(edges, same, x, y);
        }
    }
    if forced(seeds, views, x, y) {
        let same = |a: int, b: int| connected(edges, a, b);
        assert forall|a: int| #[trigger] same(a, a) by {
            connected_reflexive(edges, a);
        }
        assert forall|a: int, b: int| #[trigger] same(a, b) implies same(b, a) by {
            connected_symmetric(edges, a, b);
        }
        assert forall|a: int, b: int, c: int|
            #![trigger same(a, b), same(b, c)]
            same(a, b) && same(b, c) implies same(a, c) by {
            connected_transitive(edges, a, b, c);
        }
        assert forall|d: (int, int)| #[trigger] seeds.contains(d) implies same(d.0, d.1) by {
            assert(edges.contains(d));
            connected_reflexive(edges, d.0);
            lemma_connected_step(edges, d.0, d.0, d.1);
        }
        assert forall|r: (int, int, int, int), q: (int, int, int, int)|
            #![trigger views.contains(r), views.contains(q)]
            views.contains(r) && views.contains(q) && r.0 == q.0 && same(r.1, q.1) && same(
                r.2,
                q.2,
            ) implies same(r.3, q.3) by {
            lemma_connected_congruent(edges, views, r, q);
        }
        assert(is_congruence(same, seeds, views));
        assert(same(x, y));
    }
}

/// Once all congruences are among the edges, an id's leader is the least id of its class in the
/// smallest equivalence that holds of the seeds and is closed under congruence.
pub proof fn closed_edges_lead_classes(
    seeds: Set<(int, int)>,
    views: Set<(int, int, int, int)>,
    edges: Set<(int, int)>,
    x: int,
    l: int,
)
    requires
        from_zero(edges, views),
        seeds.subset_of(edges),
        edges_forced(seeds, views, edges),
        congruences(canonical_rows(edges, views)).subset_of(edges),
    ensures
        leads_id(edges, x, l) <==> leads_class(seeds, views, x, l),
{
    closed_edges_are_smallest(seeds, views, edges, x, l);
    if leads_id(edges, x, l) {
        assert forall|y: int| #[trigger] forced(seeds, views, x, y) implies l <= y by {
            closed_edges_are_smallest(seeds, views, edges, x, y);
        }
    }
    if leads_class(seeds, views, x, l) {
        assert forall|y: int| #[trigger] connected(edges, x, y) implies l <= y by {
            closed_edges_are_smallest(seeds, views, edges, x, y);
        }
    }
}

/// More edges connect more.
proof fn lemma_connected_grows(edges: Set<(int, int)>, more: Set<(int, int)>, x: int, y: int)
    requires
        edges.subset_of(more),
        connected(edges, x, y),
    ensures
        connected(more, x, y),
{
    let p = choose|p: Seq<int>| #[trigger] is_path(edges, p) && p[0] == x && p.last() == y;
    assert forall|i: int| 0 <= i < p.len() - 1 implies adjacent(
        more,
        #[trigger] p[i],
        p[i + 1],
    ) by {
        assert(adjacent(edges, p[i], p[i + 1]));
    }
    assert(is_path(more, p));
}

/// The edges that unions stand for.
pub open spec fn union_edges(unions: Seq<(i64, i64)>) -> Set<(int, int)> {
    Set::new(
        |e: (int, int)|
            exists|i: int|
                0 <= i < unions.len() && (#[trigger] unions[i]).0 == e.0 && unions[i].1 == e.1,
    )
}

/// The leaders of a union-find in which every id led itself.
pub open spec fn united(unions: Seq<(i64, i64)>) -> spec_fn(i64) -> i64 {
    after_unions(|x: i64| x, unions)
}

/// An id is connected to its leader in the union-find.
proof fn lemma_connected_to_leader(unions: Seq<(i64, i64)>, x: i64)
    ensures
        connected(union_edges(unions), x as int, united(unions)(x) as int),
    decreases unions.len(),
{
    let edges = union_edges(unions);
    if unions.len() == 0 {
        connected_reflexive(edges, x as int);
    } else {
        let front = unions.drop_last();
        let less = union_edges(front);
        let f = united(front);
        let a = unions.last().0;
        let b = unions.last().1;
        assert(less.subset_of(edges)) by {
            assert forall|e: (int, int)| less.contains(e) implies edges.contains(e) by {
                let i = choose|i: int|
                    0 <= i < front.len() && (#[trigger] front[i]).0 == e.0 && front[i].1 == e.1;
                assert(unions[i] == front[i]);
            }
        }
        lemma_connected_to_leader(front, x);
        lemma_connected_to_leader(front, a);
        lemma_connected_to_leader(front, b);
        lemma_connected_grows(less, edges, x as int, f(x) as int);
        lemma_connected_grows(less, edges, a as int, f(a) as int);
        lemma_connected_grows(less, edges, b as int, f(b) as int);
        assert(unions[unions.len() - 1] == (a, b));
        assert(edges.contains((a as int, b as int)));
        // The leaders of the two ids are connected over the last edge.
        connected_symmetric(edges, a as int, f(a) as int);
        lemma_connected_step(edges, f(a) as int, a as int, b as int);
        connected_transitive(edges, f(a) as int, b as int, f(b) as int);
        connected_symmetric(edges, f(a) as int, f(b) as int);
        let g = united(unions);
        if g(x) != f(x) {
            if f(x) == f(a) {
                connected_transitive(edges, x as int, f(a) as int, f(b) as int);
            } else {
                connected_transitive(edges, x as int, f(b) as int, f(a) as int);
            }
        }
    }
}

/// Connected ids have the same leader in the union-find.
proof fn lemma_connected_united(unions: Seq<(i64, i64)>, p: Seq<int>, n: int)
    requires
        is_path(union_edges(unions), p),
        0 <= n < p.len(),
        i64::MIN <= p[0] <= i64::MAX,
    ensures
        i64::MIN <= p[n] <= i64::MAX,
        united(unions)(p[n] as i64) == united(unions)(p[0] as i64),
    decreases n,
{
    if n > 0 {
        lemma_connected_united(unions, p, n - 1);
        let edges = union_edges(unions);
        assert(adjacent(edges, p[n - 1], p[n - 1 + 1]));
        let e = if edges.contains((p[n - 1], p[n])) {
            (p[n - 1], p[n])
        } else {
            (p[n], p[n - 1])
        };
        let i = choose|i: int|
            0 <= i < unions.len() && (#[trigger] unions[i]).0 == e.0 && unions[i].1 == e.1;
        unions_unite(|x: i64| x, unions, i);
    }
}

/// The circuit and the union-find agree: the least id that an id is connected to is its leader
/// once the edges are united.
pub proof fn circuit_leads_as_union_find(unions: Seq<(i64, i64)>, x: i64)
    ensures
        leads_id(union_edges(unions), x as int, united(unions)(x) as int),
{
    let edges = union_edges(unions);
    let g = united(unions);
    lemma_connected_to_leader(unions, x);
    unions_keep_leader_fn(|x: i64| x, unions);
    assert forall|y: int| #[trigger] connected(edges, x as int, y) implies g(x) <= y by {
        let p = choose|p: Seq<int>| #[trigger]
            is_path(edges, p) && p[0] == x as int && p.last() == y;
        lemma_connected_united(unions, p, p.len() - 1);
        assert(g(y as i64) == g(x));
        assert(g(y as i64) <= y);
    }
}

} // verus!
