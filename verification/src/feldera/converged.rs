//! What a rebuild comes to, and why a second one changes nothing.
//!
//! Every congruence that goes back into the circuit is forced by the edges that it was fed. So when
//! they have run out, its leaders lead the classes of the smallest equivalence that holds of those
//! edges and is closed under congruence.
//!
//! A run of the rebuild circuit ends when it gives no congruence that it was not fed. The tables
//! then hold the leaders and the canonical rows. Feeding those back adds no connection: the parent
//! edges connect what is connected, and the canonical rows are their own canonical rows.
use crate::backend::FunctionId;
use crate::feldera::circuit_rebuild::{
    canon_rows, is_seed, is_view_row, lemma_few_functions, lemma_new_edges_grow, low, new_edges,
    normalized,
    quiet_means_closed, rebuilt, roles_fit, tag_of, takes_input, uf_row, uf_rows, uff_row, uff_rows,
    view_quad, view_row, view_rows, RebuildCache, RebuildInput, RebuildRoles, NO_ARG,
};
use crate::feldera::egraph::{table_ok, EgState};
use crate::feldera::rebuild_circuit::{
    adjacent, canonical_rows, closed_edges_lead_classes, closed_views_are_functional, congruences,
    congruences_are_forced, connected, connected_reflexive, connected_share_leader,
    connected_symmetric, connected_transitive, edges_forced, forced, from_zero, is_canonical,
    is_congruence, leader_is_unique, leader_leads_itself, leads_class, leads_id,
    more_input_keeps_edges_forced, reach_equation, reach_is_least, ViewRow,
};
use vstd::prelude::*;

verus! {

/// Edges, with their ids as integers.
pub open spec fn int_edges(u: Set<(u64, u64)>) -> Set<(int, int)> {
    Set::new(
        |e: (int, int)|
            0 <= e.0 <= u64::MAX && 0 <= e.1 <= u64::MAX && u.contains((e.0 as u64, e.1 as u64)),
    )
}

/// A view row, with its ids as integers.
pub open spec fn int_row(q: ViewRow) -> (int, int, int, int) {
    (q.0 as int, q.1 as int, q.2 as int, q.3 as int)
}

/// View rows, with their ids as integers.
pub open spec fn int_rows(v: Set<ViewRow>) -> Set<(int, int, int, int)> {
    Set::new(
        |r: (int, int, int, int)| exists|q: ViewRow| #[trigger] v.contains(q) && r == int_row(q),
    )
}

/// Whether an id stands in an edge.
pub open spec fn in_edge(u: Set<(u64, u64)>, x: u64) -> bool {
    exists|e: (u64, u64)| #[trigger] u.contains(e) && (e.0 == x || e.1 == x)
}

/// Whether an id stands in a view row.
pub open spec fn in_row(v: Set<ViewRow>, x: u64) -> bool {
    exists|q: ViewRow| #[trigger] v.contains(q) && (q.1 == x || q.2 == x || q.3 == x)
}

/// Whether a congruence is given, with a weight above zero.
pub open spec fn gives_congruence(congru: Seq<((u64, u64), i64)>, p: (u64, u64)) -> bool {
    exists|i: int| 0 <= i < congru.len() && (#[trigger] congru[i]).0 == p && congru[i].1 > 0
}

/// The canonical rows of a circuit that holds the edges `u` and the view rows `v`.
pub open spec fn canonical(u: Set<(u64, u64)>, v: Set<ViewRow>) -> Set<(int, int, int, int)> {
    canonical_rows(int_edges(u), int_rows(v))
}

/// Whether these are the outputs of a circuit that holds the edges `u` and the view rows `v`: the
/// congruences, each id with its leader, and the canonical rows.
pub open spec fn circuit_gives(
    u: Set<(u64, u64)>,
    v: Set<ViewRow>,
    congru: Seq<((u64, u64), i64)>,
    leaders: Seq<(u64, u64)>,
    canon: Seq<ViewRow>,
) -> bool {
    &&& forall|p: (u64, u64)| #[trigger]
        gives_congruence(congru, p) <==> congruences(canonical(u, v)).contains(
            (p.0 as int, p.1 as int),
        )
    &&& forall|x: u64, l: u64| #[trigger]
        leaders.contains((x, l)) <==> (in_edge(u, x) || in_row(v, x)) && leads_id(
            int_edges(u),
            x as int,
            l as int,
        )
    &&& forall|q: ViewRow| #[trigger] canon.contains(q) <==> canonical(u, v).contains(int_row(q))
}

/// Whether the ids of the edges are ids of tables.
pub open spec fn small_edges(u: Set<(u64, u64)>) -> bool {
    forall|e: (u64, u64)| #[trigger] u.contains(e) ==> e.0 <= u32::MAX && e.1 <= u32::MAX
}

/// An id that is connected to another one stands in an edge.
proof fn lemma_endpoint(u: Set<(u64, u64)>, x: int, y: int)
    requires
        connected(int_edges(u), x, y),
        x != y,
    ensures
        0 <= y <= u64::MAX && in_edge(u, y as u64),
        0 <= x <= u64::MAX && in_edge(u, x as u64),
{
    let edges = int_edges(u);
    reach_equation(edges, x, y);
    let z = choose|z: int| #[trigger] connected(edges, x, z) && adjacent(edges, z, y);
    if edges.contains((z, y)) {
        assert(u.contains((z as u64, y as u64)));
    } else {
        assert(u.contains((y as u64, z as u64)));
    }
    connected_symmetric(edges, x, y);
    reach_equation(edges, y, x);
    let w = choose|w: int| #[trigger] connected(edges, y, w) && adjacent(edges, w, x);
    if edges.contains((w, x)) {
        assert(u.contains((w as u64, x as u64)));
    } else {
        assert(u.contains((x as u64, w as u64)));
    }
}

/// An id that stands in no edge leads itself.
proof fn lemma_alone(u: Set<(u64, u64)>, x: u64)
    requires
        !in_edge(u, x),
    ensures
        leads_id(int_edges(u), x as int, x as int),
{
    connected_reflexive(int_edges(u), x as int);
    assert forall|y: int| #[trigger] connected(int_edges(u), x as int, y) implies x <= y by {
        if y != x {
            lemma_endpoint(u, x as int, y);
        }
    }
}

/// A leader is no larger than its id, and is an id.
proof fn lemma_leader_range(u: Set<(u64, u64)>, x: u64, l: int)
    requires
        leads_id(int_edges(u), x as int, l),
    ensures
        0 <= l <= x,
        l != x ==> in_edge(u, x) && in_edge(u, l as u64),
{
    connected_reflexive(int_edges(u), x as int);
    if l != x {
        lemma_endpoint(u, x as int, l);
    }
}

/// Every id has a leader.
proof fn lemma_leader_exists(u: Set<(u64, u64)>, x: u64, y: int)
    requires
        connected(int_edges(u), x as int, y),
    ensures
        exists|l: int| leads_id(int_edges(u), x as int, l),
    decreases y,
{
    let edges = int_edges(u);
    if y != x {
        lemma_endpoint(u, x as int, y);
    }
    if exists|z: int| #[trigger] connected(edges, x as int, z) && z < y {
        let z = choose|z: int| #[trigger] connected(edges, x as int, z) && z < y;
        if z != x {
            lemma_endpoint(u, x as int, z);
        }
        lemma_leader_exists(u, x, z);
    } else {
        assert(leads_id(edges, x as int, y));
    }
}

/// Every view row has a canonical row, and its ids are ids.
proof fn lemma_canonical_exists(u: Set<(u64, u64)>, v: Set<ViewRow>, q: ViewRow) -> (c: ViewRow)
    requires
        v.contains(q),
    ensures
        is_canonical(int_edges(u), int_row(q), int_row(c)),
        canonical(u, v).contains(int_row(c)),
        !in_edge(u, q.1) ==> c.1 == q.1,
        !in_edge(u, q.2) ==> c.2 == q.2,
        !in_edge(u, q.3) ==> c.3 == q.3,
{
    let edges = int_edges(u);
    connected_reflexive(edges, q.1 as int);
    connected_reflexive(edges, q.2 as int);
    connected_reflexive(edges, q.3 as int);
    lemma_leader_exists(u, q.1, q.1 as int);
    lemma_leader_exists(u, q.2, q.2 as int);
    lemma_leader_exists(u, q.3, q.3 as int);
    let a = choose|l: int| leads_id(edges, q.1 as int, l);
    let b = choose|l: int| leads_id(edges, q.2 as int, l);
    let o = choose|l: int| leads_id(edges, q.3 as int, l);
    lemma_leader_range(u, q.1, a);
    lemma_leader_range(u, q.2, b);
    lemma_leader_range(u, q.3, o);
    let c = (q.0, a as u64, b as u64, o as u64);
    assert(int_rows(v).contains(int_row(q)));
    assert(is_canonical(edges, int_row(q), int_row(c)));
    c
}

/// A canonical row is the canonical row of some view row, and its ids are ids.
proof fn lemma_canonical_from(u: Set<(u64, u64)>, v: Set<ViewRow>, r: (int, int, int, int)) -> (res:
    (ViewRow, ViewRow))
    requires
        canonical(u, v).contains(r),
    ensures
        v.contains(res.0),
        int_row(res.1) == r,
        res.1.0 == res.0.0,
        is_canonical(int_edges(u), int_row(res.0), r),
        res.1.1 <= res.0.1 && res.1.2 <= res.0.2 && res.1.3 <= res.0.3,
        res.1.1 != res.0.1 ==> in_edge(u, res.0.1) && in_edge(u, res.1.1),
        res.1.2 != res.0.2 ==> in_edge(u, res.0.2) && in_edge(u, res.1.2),
        res.1.3 != res.0.3 ==> in_edge(u, res.0.3) && in_edge(u, res.1.3),
{
    let edges = int_edges(u);
    let row = choose|row: (int, int, int, int)| #[trigger]
        int_rows(v).contains(row) && is_canonical(edges, row, r);
    let q = choose|q: ViewRow| #[trigger] v.contains(q) && row == int_row(q);
    lemma_leader_range(u, q.1, r.1);
    lemma_leader_range(u, q.2, r.2);
    lemma_leader_range(u, q.3, r.3);
    (q, (r.0 as u64, r.1 as u64, r.2 as u64, r.3 as u64))
}

/// Edges between connected ids connect nothing new.
proof fn lemma_same_leaders(u: Set<(u64, u64)>, u2: Set<(u64, u64)>, x: int, l: int)
    requires
        u.subset_of(u2),
        forall|e: (u64, u64)| #[trigger]
            u2.contains(e) ==> connected(int_edges(u), e.0 as int, e.1 as int),
    ensures
        leads_id(int_edges(u2), x, l) <==> leads_id(int_edges(u), x, l),
{
    let a = int_edges(u);
    let b = int_edges(u2);
    lemma_same_connections(u, u2, x, l);
    if leads_id(a, x, l) {
        assert forall|y: int| #[trigger] connected(b, x, y) implies l <= y by {
            lemma_same_connections(u, u2, x, y);
        }
    }
    if leads_id(b, x, l) {
        assert forall|y: int| #[trigger] connected(a, x, y) implies l <= y by {
            lemma_same_connections(u, u2, x, y);
        }
    }
}

proof fn lemma_same_connections(u: Set<(u64, u64)>, u2: Set<(u64, u64)>, x: int, y: int)
    requires
        u.subset_of(u2),
        forall|e: (u64, u64)| #[trigger]
            u2.contains(e) ==> connected(int_edges(u), e.0 as int, e.1 as int),
    ensures
        connected(int_edges(u2), x, y) <==> connected(int_edges(u), x, y),
{
    let a = int_edges(u);
    let b = int_edges(u2);
    if connected(a, x, y) {
        let rel = |p: int, q: int| connected(b, p, q);
        assert forall|p: int| #[trigger] rel(p, p) by {
            connected_reflexive(b, p);
        }
        assert forall|p: int, q: int, r: int|
            #![trigger rel(p, q), adjacent(a, q, r)]
            rel(p, q) && adjacent(a, q, r) implies rel(p, r) by {
            assert(adjacent(b, q, r));
            reach_equation(b, p, r);
        }
        reach_is_least(a, rel, x, y);
    }
    if connected(b, x, y) {
        let rel = |p: int, q: int| connected(a, p, q);
        assert forall|p: int| #[trigger] rel(p, p) by {
            connected_reflexive(a, p);
        }
        assert forall|p: int, q: int, r: int|
            #![trigger rel(p, q), adjacent(b, q, r)]
            rel(p, q) && adjacent(b, q, r) implies rel(p, r) by {
            if b.contains((q, r)) {
                assert(u2.contains((q as u64, r as u64)));
            } else {
                assert(u2.contains((r as u64, q as u64)));
                connected_symmetric(a, r, q);
            }
            connected_transitive(a, p, q, r);
        }
        reach_is_least(b, rel, x, y);
    }
}

/// Where no congruence is given, none goes back.
proof fn lemma_no_edges(pushed: Set<(u64, u64)>, congru: Seq<((u64, u64), i64)>)
    requires
        forall|p: (u64, u64)| !#[trigger] gives_congruence(congru, p),
    ensures
        new_edges(pushed, congru) == (pushed, Seq::<(u64, u64)>::empty()),
    decreases congru.len(),
{
    if congru.len() > 0 {
        let front = congru.drop_last();
        assert forall|p: (u64, u64)| !#[trigger] gives_congruence(front, p) by {
            if gives_congruence(front, p) {
                let i = choose|i: int|
                    0 <= i < front.len() && (#[trigger] front[i]).0 == p && front[i].1 > 0;
                assert(congru[i] == front[i]);
                assert(gives_congruence(congru, p));
            }
        }
        lemma_no_edges(pushed, front);
        let last = congru.last();
        assert(congru[congru.len() - 1] == last);
        assert(!gives_congruence(congru, last.0));
    }
}

/// Whether the tables of the roles are fit for the law: the roles fit, and every view has a tag of
/// its own.
spec fn tagged(s: EgState, roles: &RebuildRoles, tags: Seq<FunctionId>) -> bool {
    &&& s.wf()
    &&& roles_fit(s, roles)
    &&& forall|f: FunctionId| #[trigger] roles.views@.contains(f) ==> tags.contains(f)
    &&& tags.no_duplicates()
    &&& tags.len() <= u32::MAX + 1
}

/// A view row that the circuit carries comes from a row of a view.
proof fn lemma_view_row_of(
    s: EgState,
    roles: &RebuildRoles,
    tags: Seq<FunctionId>,
    q: ViewRow,
) -> (res: (FunctionId, Seq<u32>))
    requires
        tagged(s, roles, tags),
        view_rows(s, roles.views@, tags).contains(q),
    ensures
        ({
            let t = s.tables[res.0.rep as int];
            &&& roles.views@.contains(res.0)
            &&& res.0.rep < s.tables.len()
            &&& t.rows.contains(res.1)
            &&& res.1.len() == t.info.arity
            &&& 0 < t.info.arity <= 3
            &&& q == view_quad(tag_of(tags, res.0), res.1, t.info.arity)
        }),
{
    let views = roles.views@;
    let (i, row) = choose|i: int, row: Seq<u32>|
        #![trigger views[i], s.tables[views[i].rep as int].rows.contains(row)]
        0 <= i < views.len() && s.tables[views[i].rep as int].rows.contains(row)
            && s.tables[views[i].rep as int].info.arity > 0 && q == view_quad(
            tag_of(tags, views[i]),
            row,
            s.tables[views[i].rep as int].info.arity,
        );
    assert(views.contains(views[i]));
    assert(table_ok(s.tables[views[i].rep as int]));
    (views[i], row)
}

/// Views have different tags.
proof fn lemma_tags_differ(tags: Seq<FunctionId>, f: FunctionId, g: FunctionId)
    requires
        tags.no_duplicates(),
        tags.len() <= u32::MAX + 1,
        tags.contains(f),
        tags.contains(g),
        tag_of(tags, f) == tag_of(tags, g),
    ensures
        f == g,
{
    let i = tags.index_of(f);
    let j = tags.index_of(g);
    assert(0 <= i < tags.len() && tags[i] == f);
    assert(0 <= j < tags.len() && tags[j] == g);
}

/// A canonical row of a view's row goes into the table and back unchanged.
proof fn lemma_round_trip(tag: u64, row: Seq<u32>, arity: nat, c: ViewRow)
    requires
        0 < arity <= 3,
        row.len() == arity,
        c.0 == tag,
        c.1 <= view_quad(tag, row, arity).1,
        c.3 <= view_quad(tag, row, arity).3,
        arity < 3 ==> c.2 == NO_ARG,
        arity >= 3 ==> c.2 <= view_quad(tag, row, arity).2,
        arity == 1 ==> c.1 == c.3,
    ensures
        view_quad(tag, view_row(c, arity), arity) == c,
{
    assert(low(c.1) == c.1);
    assert(low(c.3) == c.3);
    if arity >= 3 {
        assert(low(c.2) == c.2);
    }
}

/// The canonical row of a view row that the circuit carries goes into the view's table and back
/// unchanged.
proof fn lemma_carried(
    u: Set<(u64, u64)>,
    s: EgState,
    roles: &RebuildRoles,
    tags: Seq<FunctionId>,
    q: ViewRow,
    c: ViewRow,
) -> (f: FunctionId)
    requires
        small_edges(u),
        tagged(s, roles, tags),
        view_rows(s, roles.views@, tags).contains(q),
        is_canonical(int_edges(u), int_row(q), int_row(c)),
    ensures
        roles.views@.contains(f),
        f.rep < s.tables.len(),
        0 < s.tables[f.rep as int].info.arity <= 3,
        c.0 == tag_of(tags, f),
        view_quad(c.0, view_row(c, s.tables[f.rep as int].info.arity), s.tables[f.rep as int].info.arity)
            == c,
{
    let (f, row) = lemma_view_row_of(s, roles, tags, q);
    let arity = s.tables[f.rep as int].info.arity;
    lemma_leader_range(u, q.1, c.1 as int);
    lemma_leader_range(u, q.2, c.2 as int);
    lemma_leader_range(u, q.3, c.3 as int);
    if arity < 3 {
        assert(q.2 == NO_ARG);
        if c.2 != q.2 {
            assert(in_edge(u, q.2));
            let e = choose|e: (u64, u64)| #[trigger]
                u.contains(e) && (e.0 == q.2 || e.1 == q.2);
            assert(false);
        }
    }
    if arity == 1 {
        leader_is_unique(int_edges(u), q.1 as int, c.1 as int, c.3 as int);
    }
    lemma_round_trip(c.0, row, arity, c);
    f
}

/// A rebuild that has come to its end, and the next one.
#[verifier::ext_equal]
struct Rebuilds {
    /// The state when the first run began.
    pub s0: EgState,
    /// The tags of the views.
    pub tags: Seq<FunctionId>,
    /// The edges and the view rows that the circuit held at its end, and what it gave.
    pub u1: Set<(u64, u64)>,
    pub v1: Set<ViewRow>,
    pub congru1: Seq<((u64, u64), i64)>,
    pub leaders1: Seq<(u64, u64)>,
    pub canon1: Seq<ViewRow>,
    /// The edges and the view rows that it holds in the next run, and what it gives.
    pub u2: Set<(u64, u64)>,
    pub v2: Set<ViewRow>,
    pub congru2: Seq<((u64, u64), i64)>,
    pub leaders2: Seq<(u64, u64)>,
    pub canon2: Seq<ViewRow>,
}

impl Rebuilds {
    /// The state after the first run.
    spec fn s1(self, roles: &RebuildRoles) -> EgState {
        rebuilt(
            self.s0,
            roles.uf@,
            roles.uff@,
            roles.views@,
            self.tags,
            self.leaders1,
            self.canon1,
        )
    }

    /// The first run has ended, and the next one follows on what it left.
    spec fn follow(self, roles: &RebuildRoles) -> bool {
        let s1 = self.s1(roles);
        &&& tagged(self.s0, roles, self.tags)
        &&& small_edges(self.u1)
        &&& forall|p: (u64, u64)| #[trigger]
            is_seed(self.s0, roles.uf@, p) ==> self.u1.contains(p)
        &&& self.v1 == view_rows(self.s0, roles.views@, self.tags)
        &&& circuit_gives(self.u1, self.v1, self.congru1, self.leaders1, self.canon1)
        &&& new_edges(self.u1, self.congru1).1.len() == 0
        &&& self.v2 == view_rows(s1, roles.views@, self.tags)
        &&& self.u1.subset_of(self.u2)
        &&& forall|p: (u64, u64)| #[trigger]
            self.u2.contains(p) ==> self.u1.contains(p) || is_seed(s1, roles.uf@, p)
        &&& circuit_gives(self.u2, self.v2, self.congru2, self.leaders2, self.canon2)
    }
}

/// The view rows of the next run are the canonical rows of the first.
proof fn lemma_next_views(r: Rebuilds, roles: &RebuildRoles)
    requires
        r.follow(roles),
    ensures
        int_rows(r.v2) == canonical(r.u1, r.v1),
{
    let s1 = r.s1(roles);
    let views = roles.views@;
    let c1 = canonical(r.u1, r.v1);
    assert forall|x: (int, int, int, int)| int_rows(r.v2).contains(x) implies c1.contains(x) by {
        let q = choose|q: ViewRow| #[trigger] r.v2.contains(q) && x == int_row(q);
        let (i, row) = choose|i: int, row: Seq<u32>|
            #![trigger views[i], s1.tables[views[i].rep as int].rows.contains(row)]
            0 <= i < views.len() && s1.tables[views[i].rep as int].rows.contains(row)
                && s1.tables[views[i].rep as int].info.arity > 0 && q == view_quad(
                tag_of(r.tags, views[i]),
                row,
                s1.tables[views[i].rep as int].info.arity,
            );
        let f = views[i];
        assert(views.contains(f));
        assert(f.rep < r.s0.tables.len());
        let arity = r.s0.tables[f.rep as int].info.arity;
        let tag = tag_of(r.tags, f);
        assert(FunctionId { rep: (f.rep as int) as u32 } == f);
        assert(canon_rows(r.canon1, tag, arity).contains(row));
        let k = choose|k: int|
            0 <= k < r.canon1.len() && (#[trigger] r.canon1[k]).0 == tag && row == view_row(
                r.canon1[k],
                arity,
            );
        let c = r.canon1[k];
        assert(r.canon1.contains(c));
        assert(c1.contains(int_row(c)));
        let (q0, c0) = lemma_canonical_from(r.u1, r.v1, int_row(c));
        assert(c0 == c);
        let g = lemma_carried(r.u1, r.s0, roles, r.tags, q0, c);
        lemma_tags_differ(r.tags, f, g);
        assert(q == c);
    }
    assert forall|x: (int, int, int, int)| c1.contains(x) implies int_rows(r.v2).contains(x) by {
        let (q0, c) = lemma_canonical_from(r.u1, r.v1, x);
        let f = lemma_carried(r.u1, r.s0, roles, r.tags, q0, c);
        let arity = r.s0.tables[f.rep as int].info.arity;
        assert(r.canon1.contains(c));
        let k = choose|k: int| 0 <= k < r.canon1.len() && r.canon1[k] == c;
        let row = view_row(c, arity);
        assert(r.canon1[k].0 == c.0);
        assert(canon_rows(r.canon1, c.0, arity).contains(row));
        assert(FunctionId { rep: (f.rep as int) as u32 } == f);
        assert(s1.tables[f.rep as int].rows.contains(row));
        let i = choose|i: int| 0 <= i < views.len() && views[i] == f;
        assert(s1.tables[views[i].rep as int].rows.contains(row));
        assert(is_view_row(s1, views, r.tags, c));
        assert(r.v2.contains(c));
    }
    assert(int_rows(r.v2) =~= c1);
}

/// A parent relation that is a view as well is rewritten as a view. Its edges are seeds, so the two
/// ids of each have one leader, and what comes back is an edge from a leader to itself.
proof fn lemma_view_edge(r: Rebuilds, roles: &RebuildRoles, f: FunctionId, row: Seq<u32>)
    requires
        r.follow(roles),
        roles.uf@.contains(f),
        roles.views@.contains(f),
        r.s1(roles).tables[f.rep as int].rows.contains(row),
    ensures
        row[0] == row[1],
        in_edge(r.u1, row[0] as u64),
{
    let ufs = roles.uf@;
    let edges = int_edges(r.u1);
    let k = choose|k: int| 0 <= k < ufs.len() && ufs[k] == f;
    assert(f.rep < r.s0.tables.len() && r.s0.tables[ufs[k].rep as int].info.arity >= 2);
    let i = choose|i: int| 0 <= i < roles.views@.len() && roles.views@[i] == f;
    assert(r.s0.tables[roles.views@[i].rep as int].info.arity <= 3);
    let arity = r.s0.tables[f.rep as int].info.arity;
    let tag = tag_of(r.tags, f);
    assert(FunctionId { rep: (f.rep as int) as u32 } == f);
    assert(canon_rows(r.canon1, tag, arity).contains(row));
    let j = choose|j: int|
        0 <= j < r.canon1.len() && (#[trigger] r.canon1[j]).0 == tag && row == view_row(
            r.canon1[j],
            arity,
        );
    let c = r.canon1[j];
    assert(r.canon1.contains(c));
    let (q, c0) = lemma_canonical_from(r.u1, r.v1, int_row(c));
    assert(c0 == c);
    let (g, was) = lemma_view_row_of(r.s0, roles, r.tags, q);
    lemma_tags_differ(r.tags, f, g);
    let e = normalized(was[0] as u64, was[1] as u64);
    assert(r.s0.tables[ufs[k].rep as int].rows.contains(was));
    assert(is_seed(r.s0, ufs, e));
    assert(r.u1.contains(e));
    let x = was[0] as int;
    let y = was[1] as int;
    connected_reflexive(edges, x);
    assert(edges.contains((e.0 as int, e.1 as int)));
    assert(adjacent(edges, x, y));
    reach_equation(edges, x, y);
    connected_share_leader(edges, x, y, c.1 as int);
    if arity == 2 {
        leader_is_unique(edges, y, c.1 as int, c.3 as int);
    } else {
        leader_is_unique(edges, y, c.1 as int, c.2 as int);
    }
    assert(c.1 <= u32::MAX);
    assert(low(c.1) == c.1);
    lemma_leader_range(r.u1, was[0] as u64, c.1 as int);
}

/// An edge of a parent relation goes from an id to its leader.
proof fn lemma_parent_edge(r: Rebuilds, roles: &RebuildRoles, f: FunctionId, row: Seq<u32>)
    requires
        r.follow(roles),
        roles.uf@.contains(f),
        !roles.views@.contains(f),
        r.s1(roles).tables[f.rep as int].rows.contains(row),
    ensures
        connected(int_edges(r.u1), row[0] as int, row[1] as int),
        in_edge(r.u1, row[0] as u64) && in_edge(r.u1, row[1] as u64),
{
    let ufs = roles.uf@;
    let i = choose|i: int| 0 <= i < ufs.len() && ufs[i] == f;
    assert(f.rep < r.s0.tables.len() && r.s0.tables[ufs[i].rep as int].info.arity >= 2);
    assert(FunctionId { rep: (f.rep as int) as u32 } == f);
    let arity = r.s0.tables[f.rep as int].info.arity;
    assert(uf_rows(r.leaders1, arity).contains(row));
    let k = choose|k: int|
        0 <= k < r.leaders1.len() && (#[trigger] r.leaders1[k]).0 != r.leaders1[k].1 && row
            == uf_row(r.leaders1[k], arity);
    let (x, l) = r.leaders1[k];
    assert(r.leaders1.contains((x, l)));
    lemma_leader_range(r.u1, x, l as int);
    let e = choose|e: (u64, u64)| #[trigger] r.u1.contains(e) && (e.0 == x || e.1 == x);
    assert(x <= u32::MAX);
    assert(low(x) == x && low(l) == l);
    assert(row[0] == x && row[1] == l);
}

/// The parent edges after the first run connect what is connected.
proof fn lemma_next_edges(r: Rebuilds, roles: &RebuildRoles, p: (u64, u64))
    requires
        r.follow(roles),
        r.u2.contains(p),
    ensures
        connected(int_edges(r.u1), p.0 as int, p.1 as int),
        in_edge(r.u1, p.0) && in_edge(r.u1, p.1),
{
    let s1 = r.s1(roles);
    let ufs = roles.uf@;
    let edges = int_edges(r.u1);
    if r.u1.contains(p) {
        connected_reflexive(edges, p.0 as int);
        assert(edges.contains((p.0 as int, p.1 as int)));
        assert(adjacent(edges, p.0 as int, p.1 as int));
        reach_equation(edges, p.0 as int, p.1 as int);
    } else {
        let (i, row) = choose|i: int, row: Seq<u32>|
            #![trigger ufs[i], s1.tables[ufs[i].rep as int].rows.contains(row)]
            0 <= i < ufs.len() && s1.tables[ufs[i].rep as int].rows.contains(row) && p
                == normalized(row[0] as u64, row[1] as u64);
        let f = ufs[i];
        assert(ufs.contains(f));
        assert(f.rep < r.s0.tables.len());
        assert(FunctionId { rep: (f.rep as int) as u32 } == f);
        let arity = r.s0.tables[f.rep as int].info.arity;
        if roles.views@.contains(f) {
            lemma_view_edge(r, roles, f, row);
            connected_reflexive(edges, p.0 as int);
        } else {
            lemma_parent_edge(r, roles, f, row);
            connected_symmetric(edges, row[0] as int, row[1] as int);
        }
    }
}

/// The ids of the next run are those of the first.
proof fn lemma_next_ids(r: Rebuilds, roles: &RebuildRoles, x: u64)
    requires
        r.follow(roles),
    ensures
        in_edge(r.u2, x) || in_row(r.v2, x) <==> in_edge(r.u1, x) || in_row(r.v1, x),
{
    lemma_next_views(r, roles);
    if in_edge(r.u2, x) {
        let e = choose|e: (u64, u64)| #[trigger] r.u2.contains(e) && (e.0 == x || e.1 == x);
        lemma_next_edges(r, roles, e);
    }
    if in_row(r.v2, x) {
        let q = choose|q: ViewRow| #[trigger]
            r.v2.contains(q) && (q.1 == x || q.2 == x || q.3 == x);
        assert(int_rows(r.v2).contains(int_row(q)));
        let (q0, c) = lemma_canonical_from(r.u1, r.v1, int_row(q));
        assert(c == q);
        assert(r.v1.contains(q0));
    }
    if in_edge(r.u1, x) {
        let e = choose|e: (u64, u64)| #[trigger] r.u1.contains(e) && (e.0 == x || e.1 == x);
        assert(r.u2.contains(e));
    } else if in_row(r.v1, x) {
        let q = choose|q: ViewRow| #[trigger]
            r.v1.contains(q) && (q.1 == x || q.2 == x || q.3 == x);
        let c = lemma_canonical_exists(r.u1, r.v1, q);
        assert(int_rows(r.v2).contains(int_row(c)));
        let c2 = choose|c2: ViewRow| #[trigger] r.v2.contains(c2) && int_row(c) == int_row(c2);
        assert(c2 == c);
        assert(r.v2.contains(c));
    }
}

/// The canonical rows of the next run are those of the first.
proof fn lemma_next_canonical(r: Rebuilds, roles: &RebuildRoles)
    requires
        r.follow(roles),
    ensures
        canonical(r.u2, r.v2) == canonical(r.u1, r.v1),
{
    lemma_next_views(r, roles);
    let a = int_edges(r.u1);
    let b = int_edges(r.u2);
    let c1 = canonical(r.u1, r.v1);
    assert forall|e: (u64, u64)| #[trigger] r.u2.contains(e) implies connected(
        a,
        e.0 as int,
        e.1 as int,
    ) by {
        lemma_next_edges(r, roles, e);
    }
    assert forall|x: int, l: int| #[trigger] leads_id(b, x, l) <==> leads_id(a, x, l) by {
        lemma_same_leaders(r.u1, r.u2, x, l);
    }
    assert forall|c: (int, int, int, int)| c1.contains(c) implies is_canonical(b, c, c) by {
        let (q0, c64) = lemma_canonical_from(r.u1, r.v1, c);
        leader_leads_itself(a, q0.1 as int, c.1);
        leader_leads_itself(a, q0.2 as int, c.2);
        leader_leads_itself(a, q0.3 as int, c.3);
    }
    assert forall|c: (int, int, int, int)| canonical(r.u2, r.v2).contains(c) <==> c1.contains(
        c,
    ) by {
        if canonical(r.u2, r.v2).contains(c) {
            let row = choose|row: (int, int, int, int)| #[trigger]
                int_rows(r.v2).contains(row) && is_canonical(b, row, c);
            assert(c1.contains(row));
            assert(is_canonical(b, row, row));
            leader_is_unique(b, row.1, row.1, c.1);
            leader_is_unique(b, row.2, row.2, c.2);
            leader_is_unique(b, row.3, row.3, c.3);
            assert(c == row);
        }
        if c1.contains(c) {
            assert(int_rows(r.v2).contains(c) && is_canonical(b, c, c));
        }
    }
    assert(canonical(r.u2, r.v2) =~= c1);
}

/// A run that has come to its end leaves no congruence.
proof fn lemma_no_congruence(r: Rebuilds, roles: &RebuildRoles, p: (int, int))
    requires
        r.follow(roles),
    ensures
        !congruences(canonical(r.u1, r.v1)).contains(p),
{
    let edges = int_edges(r.u1);
    let c1 = canonical(r.u1, r.v1);
    lemma_quiet_closed(r.u1, r.v1, r.congru1, r.leaders1, r.canon1);
    assert(congruences(c1).subset_of(edges));
    if congruences(c1).contains(p) {
        let (a, b) = choose|a: (int, int, int, int), b: (int, int, int, int)|
            #![trigger c1.contains(a), c1.contains(b)]
            c1.contains(a) && c1.contains(b) && a.0 == b.0 && a.1 == b.1 && a.2 == b.2 && a.3
                == p.0 && b.3 == p.1;
        closed_views_are_functional(edges, int_rows(r.v1), a, b);
    }
}

/// Once a rebuild has come to its end, the next one on what it left ends at once, and changes no
/// table.
proof fn next_rebuild_changes_nothing(r: Rebuilds, roles: &RebuildRoles)
    requires
        r.follow(roles),
    ensures
        new_edges(r.u2, r.congru2) == (r.u2, Seq::<(u64, u64)>::empty()),
        rebuilt(
            r.s1(roles),
            roles.uf@,
            roles.uff@,
            roles.views@,
            r.tags,
            r.leaders2,
            r.canon2,
        ) == r.s1(roles),
{
    let s1 = r.s1(roles);
    let twice = rebuilt(
        s1,
        roles.uf@,
        roles.uff@,
        roles.views@,
        r.tags,
        r.leaders2,
        r.canon2,
    );
    lemma_next_canonical(r, roles);
    assert forall|p: (u64, u64)| !#[trigger] gives_congruence(r.congru2, p) by {
        lemma_no_congruence(r, roles, (p.0 as int, p.1 as int));
    }
    lemma_no_edges(r.u2, r.congru2);
    assert forall|e: (u64, u64)| #[trigger] r.u2.contains(e) implies connected(
        int_edges(r.u1),
        e.0 as int,
        e.1 as int,
    ) by {
        lemma_next_edges(r, roles, e);
    }
    assert forall|e: (u64, u64)| #[trigger] r.leaders2.contains(e) <==> r.leaders1.contains(e) by {
        lemma_next_ids(r, roles, e.0);
        lemma_same_leaders(r.u1, r.u2, e.0 as int, e.1 as int);
        assert(r.leaders2.contains((e.0, e.1)) <==> r.leaders1.contains((e.0, e.1)));
    }
    assert forall|f: int| 0 <= f < s1.tables.len() implies #[trigger] twice.tables[f]
        == s1.tables[f] by {
        let arity = r.s0.tables[f].info.arity;
        let tag = tag_of(r.tags, FunctionId { rep: f as u32 });
        lemma_same_rows(r.leaders1, r.leaders2, r.canon1, r.canon2, tag, arity);
    }
    assert(twice.tables =~= s1.tables);
    assert(twice =~= s1);
}

/// Feeding a circuit keeps its edges between ids of tables.
pub proof fn input_keeps_edges_small(
    c: RebuildCache,
    s: EgState,
    roles: &RebuildRoles,
    c2: RebuildCache,
    inp: &RebuildInput,
)
    requires
        small_edges(c.pushed()),
        takes_input(c, s, roles, c2, inp),
    ensures
        small_edges(c2.pushed()),
{
    assert forall|e: (u64, u64)| #[trigger] c2.pushed().contains(e) implies e.0 <= u32::MAX && e.1
        <= u32::MAX by {
        if !c.pushed().contains(e) {
            assert(is_seed(s, roles.uf@, e));
        }
    }
}

/// Sending its congruences back to a circuit keeps its edges between ids of tables.
pub proof fn congruences_keep_edges_small(
    s: EgState,
    views: Seq<FunctionId>,
    tags: Seq<FunctionId>,
    u: Set<(u64, u64)>,
    congru: Seq<((u64, u64), i64)>,
    leaders: Seq<(u64, u64)>,
    canon: Seq<ViewRow>,
)
    requires
        small_edges(u),
        circuit_gives(u, view_rows(s, views, tags), congru, leaders, canon),
    ensures
        small_edges(new_edges(u, congru).0),
{
    let v = view_rows(s, views, tags);
    let c1 = canonical(u, v);
    assert forall|i: int| 0 <= i < congru.len() && (#[trigger] congru[i]).1 > 0 implies congru[i].0.0
        <= u32::MAX && congru[i].0.1 <= u32::MAX by {
        let p = congru[i].0;
        assert(gives_congruence(congru, p));
        let (a, b) = choose|a: (int, int, int, int), b: (int, int, int, int)|
            #![trigger c1.contains(a), c1.contains(b)]
            c1.contains(a) && c1.contains(b) && a.0 == b.0 && a.1 == b.1 && a.2 == b.2 && a.3
                == p.0 && b.3 == p.1;
        let (qa, ca) = lemma_canonical_from(u, v, a);
        let (qb, cb) = lemma_canonical_from(u, v, b);
        assert(is_view_row(s, views, tags, qa));
        assert(is_view_row(s, views, tags, qb));
    }
    lemma_new_edges_small(u, congru);
}

proof fn lemma_new_edges_small(u: Set<(u64, u64)>, congru: Seq<((u64, u64), i64)>)
    requires
        small_edges(u),
        forall|i: int|
            0 <= i < congru.len() && (#[trigger] congru[i]).1 > 0 ==> congru[i].0.0 <= u32::MAX
                && congru[i].0.1 <= u32::MAX,
    ensures
        small_edges(new_edges(u, congru).0),
    decreases congru.len(),
{
    if congru.len() > 0 {
        let front = congru.drop_last();
        assert forall|i: int| 0 <= i < front.len() && (#[trigger] front[i]).1 > 0 implies front[i].0.0
            <= u32::MAX && front[i].0.1 <= u32::MAX by {
            assert(congru[i] == front[i]);
        }
        lemma_new_edges_small(u, front);
        assert(congru[congru.len() - 1] == congru.last());
    }
}

/// Whether a cache is one that has sent congruences back since it took its input: only the edges
/// that it was fed may have grown.
pub open spec fn later_in_run(cin: RebuildCache, c: RebuildCache) -> bool {
    &&& c.tags() == cin.tags()
    &&& c.fed_views() == cin.fed_views()
    &&& c.fed_seeds() == cin.fed_seeds()
    &&& cin.pushed().subset_of(c.pushed())
}

/// A second rebuild on tables that nothing has touched since ends at its first step and changes
/// nothing. The first run began on `s0` with the cache `c0`, which took its input to `cin`; `c` is the
/// cache at its end, where the circuit gave the outputs `first` and no congruence went back. `c2` is
/// the cache once the second run has taken its input, and `second` are the outputs that the circuit
/// gives then. The edges that were fed are between ids of tables, as feeding a circuit keeps them.
pub proof fn second_rebuild_changes_nothing(
    c0: RebuildCache,
    s0: EgState,
    roles: &RebuildRoles,
    cin: RebuildCache,
    inp: &RebuildInput,
    c: RebuildCache,
    first: (Seq<((u64, u64), i64)>, Seq<(u64, u64)>, Seq<ViewRow>),
    c2: RebuildCache,
    inp2: &RebuildInput,
    second: (Seq<((u64, u64), i64)>, Seq<(u64, u64)>, Seq<ViewRow>),
)
    requires
        c.wf(),
        c2.wf(),
        s0.wf(),
        roles_fit(s0, roles),
        small_edges(c.pushed()),
        takes_input(c0, s0, roles, cin, inp),
        later_in_run(cin, c),
        circuit_gives(c.pushed(), c.fed_views(), first.0, first.1, first.2),
        new_edges(c.pushed(), first.0).1.len() == 0,
        takes_input(
            c,
            rebuilt(s0, roles.uf@, roles.uff@, roles.views@, c.tags(), first.1, first.2),
            roles,
            c2,
            inp2,
        ),
        circuit_gives(c2.pushed(), c2.fed_views(), second.0, second.1, second.2),
    ensures
        new_edges(c2.pushed(), second.0) == (c2.pushed(), Seq::<(u64, u64)>::empty()),
        ({
            let s1 = rebuilt(s0, roles.uf@, roles.uff@, roles.views@, c.tags(), first.1, first.2);
            rebuilt(s1, roles.uf@, roles.uff@, roles.views@, c2.tags(), second.1, second.2) == s1
        }),
{
    assert(c2.tags() =~= c.tags()) by {
        if c2.tags().len() > c.tags().len() {
            let k = c.tags().len() as int;
            let f = c2.tags()[k];
            assert(c2.tags().contains(f));
            assert(c.tags().contains(f));
            let i = choose|i: int| 0 <= i < c.tags().len() && c.tags()[i] == f;
            assert(c2.tags()[i] == f);
        }
    }
    lemma_few_functions(c.tags());
    let r = Rebuilds {
        s0,
        tags: c.tags(),
        u1: c.pushed(),
        v1: c.fed_views(),
        congru1: first.0,
        leaders1: first.1,
        canon1: first.2,
        u2: c2.pushed(),
        v2: c2.fed_views(),
        congru2: second.0,
        leaders2: second.1,
        canon2: second.2,
    };
    assert(c.pushed().subset_of(c2.pushed())) by {
        assert forall|p: (u64, u64)| c.pushed().contains(p) implies c2.pushed().contains(p) by {}
    }
    assert forall|p: (u64, u64)| #[trigger] is_seed(s0, roles.uf@, p) implies c.pushed().contains(
        p,
    ) by {
        assert(c.fed_seeds().contains(p));
    }
    assert(r.follow(roles));
    next_rebuild_changes_nothing(r, roles);
}

/// The rows that are folded in depend on which leaders and canonical rows there are, not on their
/// order.
proof fn lemma_same_rows(
    a: Seq<(u64, u64)>,
    b: Seq<(u64, u64)>,
    ca: Seq<ViewRow>,
    cb: Seq<ViewRow>,
    tag: u64,
    arity: nat,
)
    requires
        forall|e: (u64, u64)| #[trigger] b.contains(e) <==> a.contains(e),
        forall|q: ViewRow| #[trigger] cb.contains(q) <==> ca.contains(q),
    ensures
        uff_rows(a) == uff_rows(b),
        uf_rows(a, arity) == uf_rows(b, arity),
        canon_rows(ca, tag, arity) == canon_rows(cb, tag, arity),
{
    lemma_rows_within(a, b, ca, cb, tag, arity);
    lemma_rows_within(b, a, cb, ca, tag, arity);
    assert(uff_rows(a) =~= uff_rows(b));
    assert(uf_rows(a, arity) =~= uf_rows(b, arity));
    assert(canon_rows(ca, tag, arity) =~= canon_rows(cb, tag, arity));
}

proof fn lemma_rows_within(
    a: Seq<(u64, u64)>,
    b: Seq<(u64, u64)>,
    ca: Seq<ViewRow>,
    cb: Seq<ViewRow>,
    tag: u64,
    arity: nat,
)
    requires
        forall|e: (u64, u64)| #[trigger] b.contains(e) <==> a.contains(e),
        forall|q: ViewRow| #[trigger] cb.contains(q) <==> ca.contains(q),
    ensures
        uff_rows(a).subset_of(uff_rows(b)),
        uf_rows(a, arity).subset_of(uf_rows(b, arity)),
        canon_rows(ca, tag, arity).subset_of(canon_rows(cb, tag, arity)),
{
    assert forall|r: Seq<u32>| uff_rows(a).contains(r) implies uff_rows(b).contains(r) by {
        let i = choose|i: int| 0 <= i < a.len() && r == uff_row(#[trigger] a[i]);
        assert(a.contains(a[i]));
        assert(b.contains(a[i]));
        let j = choose|j: int| 0 <= j < b.len() && b[j] == a[i];
        assert(r == uff_row(b[j]));
    }
    assert forall|r: Seq<u32>| uf_rows(a, arity).contains(r) implies uf_rows(b, arity).contains(
        r,
    ) by {
        let i = choose|i: int|
            0 <= i < a.len() && (#[trigger] a[i]).0 != a[i].1 && r == uf_row(a[i], arity);
        assert(a.contains(a[i]));
        assert(b.contains(a[i]));
        let j = choose|j: int| 0 <= j < b.len() && b[j] == a[i];
        assert(b[j].0 != b[j].1 && r == uf_row(b[j], arity));
    }
    assert forall|r: Seq<u32>| canon_rows(ca, tag, arity).contains(r) implies canon_rows(
        cb,
        tag,
        arity,
    ).contains(r) by {
        let i = choose|i: int|
            0 <= i < ca.len() && (#[trigger] ca[i]).0 == tag && r == view_row(ca[i], arity);
        assert(ca.contains(ca[i]));
        assert(cb.contains(ca[i]));
        let j = choose|j: int| 0 <= j < cb.len() && cb[j] == ca[i];
        assert(cb[j].0 == tag && r == view_row(cb[j], arity));
    }
}

// ---------------------------------------------------------------------------
// What the fixpoint is
// ---------------------------------------------------------------------------

/// What a rebuild circuit was fed: union edges by its callers, view rows, and all edges, those that
/// went back as congruences included. Edges have the smaller id first.
#[verifier::ext_equal]
pub struct Fed {
    pub seeds: Set<(u64, u64)>,
    pub views: Set<ViewRow>,
    pub edges: Set<(u64, u64)>,
}

/// Whether a circuit is fed more edges and more view rows.
pub open spec fn is_fed(a: Fed, b: Fed) -> bool {
    &&& a.seeds.subset_of(b.seeds)
    &&& a.views.subset_of(b.views)
    &&& b.edges == a.edges.union(b.seeds)
}

/// Whether the congruences that a circuit gives go back to it.
pub open spec fn goes_back(
    a: Fed,
    b: Fed,
    out: (Seq<((u64, u64), i64)>, Seq<(u64, u64)>, Seq<ViewRow>),
) -> bool {
    &&& circuit_gives(a.edges, a.views, out.0, out.1, out.2)
    &&& b == (Fed { edges: new_edges(a.edges, out.0).0, ..a })
}

/// Whether a circuit that began with nothing came this way: at each place it was fed more, or its
/// congruences went back. Any number of runs to the fixpoint are such a way.
pub open spec fn is_history(
    h: Seq<Fed>,
    outs: Seq<(Seq<((u64, u64), i64)>, Seq<(u64, u64)>, Seq<ViewRow>)>,
) -> bool {
    &&& h.len() > 0
    &&& h[0] == (Fed { seeds: Set::empty(), views: Set::empty(), edges: Set::empty() })
    &&& forall|i: int|
        0 <= i < h.len() - 1 ==> is_fed(#[trigger] h[i], h[i + 1]) || goes_back(
            h[i],
            h[i + 1],
            outs[i],
        )
}

/// The seeds of a circuit are among its edges, and force them all.
pub open spec fn seeds_force(f: Fed) -> bool {
    &&& f.seeds.subset_of(f.edges)
    &&& edges_forced(int_edges(f.seeds), int_rows(f.views), int_edges(f.edges))
}

/// Feeding a circuit more keeps its edges forced by its seeds.
proof fn lemma_fed_forced(a: Fed, b: Fed)
    requires
        seeds_force(a),
        is_fed(a, b),
    ensures
        seeds_force(b),
{
    assert(int_edges(a.seeds).subset_of(int_edges(b.seeds)));
    assert(int_rows(a.views).subset_of(int_rows(b.views))) by {
        assert forall|r: (int, int, int, int)| int_rows(a.views).contains(r) implies int_rows(
            b.views,
        ).contains(r) by {
            let q = choose|q: ViewRow| #[trigger] a.views.contains(q) && r == int_row(q);
            assert(b.views.contains(q));
        }
    }
    more_input_keeps_edges_forced(
        int_edges(a.seeds),
        int_rows(a.views),
        int_edges(a.edges),
        int_edges(b.seeds),
        int_rows(b.views),
    );
    assert(int_edges(b.edges) =~= int_edges(a.edges).union(int_edges(b.seeds)));
}

/// An edge that went back is one that was there, or a congruence.
proof fn lemma_new_edge(u: Set<(u64, u64)>, congru: Seq<((u64, u64), i64)>, e: (u64, u64))
    requires
        new_edges(u, congru).0.contains(e),
        !u.contains(e),
    ensures
        exists|p: (u64, u64)| #[trigger]
            gives_congruence(congru, p) && e == normalized(p.0, p.1),
    decreases congru.len(),
{
    if congru.len() > 0 {
        let front = congru.drop_last();
        let last = congru.last();
        assert(congru[congru.len() - 1] == last);
        if new_edges(u, front).0.contains(e) {
            lemma_new_edge(u, front, e);
            let p = choose|p: (u64, u64)| #[trigger]
                gives_congruence(front, p) && e == normalized(p.0, p.1);
            let i = choose|i: int|
                0 <= i < front.len() && (#[trigger] front[i]).0 == p && front[i].1 > 0;
            assert(congru[i] == front[i]);
            assert(gives_congruence(congru, p));
        } else {
            assert(gives_congruence(congru, last.0));
        }
    }
}

/// Sending congruences back to a circuit keeps its edges forced by its seeds.
proof fn lemma_back_forced(
    a: Fed,
    b: Fed,
    out: (Seq<((u64, u64), i64)>, Seq<(u64, u64)>, Seq<ViewRow>),
)
    requires
        seeds_force(a),
        goes_back(a, b, out),
    ensures
        seeds_force(b),
{
    let seeds = int_edges(a.seeds);
    let views = int_rows(a.views);
    let edges = int_edges(a.edges);
    lemma_new_edges_grow(a.edges, out.0);
    assert forall|e: (int, int)| #[trigger] int_edges(b.edges).contains(e) implies forced(
        seeds,
        views,
        e.0,
        e.1,
    ) by {
        if !edges.contains(e) {
            let e64 = (e.0 as u64, e.1 as u64);
            lemma_new_edge(a.edges, out.0, e64);
            let p = choose|p: (u64, u64)| #[trigger]
                gives_congruence(out.0, p) && e64 == normalized(p.0, p.1);
            assert forall|same: spec_fn(int, int) -> bool| #[trigger]
                is_congruence(same, seeds, views) implies same(e.0, e.1) by {
                assert forall|d: (int, int)| #[trigger] edges.contains(d) implies same(
                    d.0,
                    d.1,
                ) by {
                    assert(forced(seeds, views, d.0, d.1));
                }
                congruences_are_forced(edges, views, same, (p.0 as int, p.1 as int));
                assert(same(p.0 as int, p.1 as int));
                assert(same(p.1 as int, p.0 as int));
            }
        }
    }
}

/// However a circuit was fed, its seeds force its edges.
pub proof fn seeds_force_the_edges(
    h: Seq<Fed>,
    outs: Seq<(Seq<((u64, u64), i64)>, Seq<(u64, u64)>, Seq<ViewRow>)>,
    n: int,
)
    requires
        is_history(h, outs),
        0 <= n < h.len(),
    ensures
        seeds_force(h[n]),
    decreases n,
{
    if n > 0 {
        seeds_force_the_edges(h, outs, n - 1);
        assert(is_fed(h[n - 1], h[n - 1 + 1]) || goes_back(h[n - 1], h[n - 1 + 1], outs[n - 1]));
        if is_fed(h[n - 1], h[n]) {
            lemma_fed_forced(h[n - 1], h[n]);
        } else {
            lemma_back_forced(h[n - 1], h[n], outs[n - 1]);
        }
    } else {
        assert(int_edges(h[0].edges) =~= Set::empty());
    }
}

/// A row with each id replaced by the least of its class in the smallest equivalence that holds of
/// the seeds and is closed under congruence.
pub open spec fn is_class_row(f: Fed, row: ViewRow, q: ViewRow) -> bool {
    let seeds = int_edges(f.seeds);
    let views = int_rows(f.views);
    &&& q.0 == row.0
    &&& leads_class(seeds, views, row.1 as int, q.1 as int)
    &&& leads_class(seeds, views, row.2 as int, q.2 as int)
    &&& leads_class(seeds, views, row.3 as int, q.3 as int)
}

/// What the fixpoint is. When no congruence goes back to a circuit any more, its leaders are the least
/// ids of the classes of the smallest equivalence that holds of the edges its callers fed and is
/// closed under congruence, one for each id that stands in an edge or a view row. Its canonical rows
/// are the view rows with their ids replaced by those leaders.
pub proof fn fixpoint_is_the_smallest_congruence(
    h: Seq<Fed>,
    outs: Seq<(Seq<((u64, u64), i64)>, Seq<(u64, u64)>, Seq<ViewRow>)>,
    congru: Seq<((u64, u64), i64)>,
    leaders: Seq<(u64, u64)>,
    canon: Seq<ViewRow>,
)
    requires
        is_history(h, outs),
        circuit_gives(h.last().edges, h.last().views, congru, leaders, canon),
        new_edges(h.last().edges, congru).1.len() == 0,
    ensures
        forall|x: u64, l: u64| #[trigger]
            leaders.contains((x, l)) <==> (in_edge(h.last().edges, x) || in_row(
                h.last().views,
                x,
            )) && leads_class(
                int_edges(h.last().seeds),
                int_rows(h.last().views),
                x as int,
                l as int,
            ),
        forall|q: ViewRow| #[trigger]
            canon.contains(q) <==> exists|row: ViewRow| #[trigger]
                h.last().views.contains(row) && is_class_row(h.last(), row, q),
{
    let f = h.last();
    let seeds = int_edges(f.seeds);
    let views = int_rows(f.views);
    let edges = int_edges(f.edges);
    seeds_force_the_edges(h, outs, h.len() - 1);
    assert(seeds.subset_of(edges));
    assert(from_zero(edges, views));
    assert(congruences(canonical_rows(edges, views)).subset_of(edges)) by {
        lemma_quiet_closed(f.edges, f.views, congru, leaders, canon);
    }
    assert forall|x: int, l: int| #[trigger] leads_id(edges, x, l) <==> leads_class(
        seeds,
        views,
        x,
        l,
    ) by {
        closed_edges_lead_classes(seeds, views, edges, x, l);
    }
    assert forall|x: int, l: int| #[trigger] leads_class(seeds, views, x, l) <==> leads_id(
        edges,
        x,
        l,
    ) by {
        closed_edges_lead_classes(seeds, views, edges, x, l);
    }
    assert forall|q: ViewRow| #[trigger] canon.contains(q) <==> exists|row: ViewRow| #[trigger]
        f.views.contains(row) && is_class_row(f, row, q) by {
        if canon.contains(q) {
            let (row, c) = lemma_canonical_from(f.edges, f.views, int_row(q));
            assert(c == q);
            assert(f.views.contains(row) && is_class_row(f, row, q));
        }
        if exists|row: ViewRow| #[trigger] f.views.contains(row) && is_class_row(f, row, q) {
            let row = choose|row: ViewRow| #[trigger]
                f.views.contains(row) && is_class_row(f, row, q);
            assert(views.contains(int_row(row)));
            assert(is_canonical(edges, int_row(row), int_row(q)));
            assert(canonical(f.edges, f.views).contains(int_row(q)));
        }
    }
}

/// Where no congruence goes back, all congruences are among the edges.
proof fn lemma_quiet_closed(
    u: Set<(u64, u64)>,
    v: Set<ViewRow>,
    congru: Seq<((u64, u64), i64)>,
    leaders: Seq<(u64, u64)>,
    canon: Seq<ViewRow>,
)
    requires
        circuit_gives(u, v, congru, leaders, canon),
        new_edges(u, congru).1.len() == 0,
    ensures
        congruences(canonical(u, v)).subset_of(int_edges(u)),
{
    let c1 = canonical(u, v);
    assert forall|e: (int, int)| congruences(c1).contains(e) implies int_edges(u).contains(e) by {
        let (a, b) = choose|a: (int, int, int, int), b: (int, int, int, int)|
            #![trigger c1.contains(a), c1.contains(b)]
            c1.contains(a) && c1.contains(b) && a.0 == b.0 && a.1 == b.1 && a.2 == b.2 && a.3
                == e.0 && b.3 == e.1;
        let (qa, ca) = lemma_canonical_from(u, v, a);
        let (qb, cb) = lemma_canonical_from(u, v, b);
        let e64 = (ca.3, cb.3);
        assert(gives_congruence(congru, e64));
        let i = choose|i: int|
            0 <= i < congru.len() && (#[trigger] congru[i]).0 == e64 && congru[i].1 > 0;
        quiet_means_closed(u, congru, i);
        assert(u.contains(e64));
    }
}

/// What a cache records of its circuit.
pub open spec fn fed_of(c: RebuildCache) -> Fed {
    Fed { seeds: c.fed_seeds(), views: c.fed_views(), edges: c.pushed() }
}

/// A run that takes its input feeds its circuit more, where no view row has gone.
pub proof fn input_feeds_the_circuit(
    c: RebuildCache,
    s: EgState,
    roles: &RebuildRoles,
    c2: RebuildCache,
    inp: &RebuildInput,
)
    requires
        c.wf(),
        takes_input(c, s, roles, c2, inp),
        c.fed_views().subset_of(c2.fed_views()),
    ensures
        is_fed(fed_of(c), fed_of(c2)),
{
    assert forall|p: (u64, u64)| c2.pushed().contains(p) <==> c.pushed().contains(p)
        || c2.fed_seeds().contains(p) by {
        if c2.fed_seeds().contains(p) && c.fed_seeds().contains(p) {
            assert(c.pushed().contains(p));
        }
    }
    assert(c2.pushed() =~= c.pushed().union(c2.fed_seeds()));
    assert(c.fed_seeds().subset_of(c2.fed_seeds())) by {
        assert forall|p: (u64, u64)| c.fed_seeds().contains(p) implies c2.fed_seeds().contains(
            p,
        ) by {}
    }
}

} // verus!
