//! Rebuild rulesets on the rebuild circuit.
//!
//! A set of rules that are all rebuild rules is replaced by one run of a circuit
//! that computes leaders and canonical view rows. This module recognizes such
//! rules, says what the circuit is fed, which congruence edges go back to its
//! input, and folds its results into the tables.
use crate::backend::FunctionId;
use crate::collections::{row_views, PairSet, QuadSet};
use crate::feldera::compile::{BodyOp, HeadOp, Row, RuleIr};
use crate::feldera::egraph::{table_ok, EGraph, EgState};
use crate::feldera::expr::lemma_push_contains;
use crate::feldera::interpret::{has_atoms, rule_fits};
use crate::feldera::join::contains_func;
use crate::feldera::table::TableState;
use crate::text::{contains_str, occurs_in};
use vstd::prelude::*;

verus! {

/// Stands for the second argument of a constructor with one argument. It is above
/// every id.
pub const NO_ARG: u64 = 0xffff_ffff_ffff_fffe;

/// The tag of the first view.
pub const FIRST_TAG: u64 = 0x100_0000_0000;

/// How often the congruence edges may go back before a run is given up.
pub const MAX_STEPS: usize = 100_000;

// ---------------------------------------------------------------------------
// Recognition
// ---------------------------------------------------------------------------

/// What a rebuild rule does.
#[derive(Clone, Copy, Debug, PartialEq, Eq, Structural)]
pub enum RoleKind {
    /// Writes the union-find index from the parent edges.
    UfIndex,
    /// Compresses paths of parent edges.
    PathCompress,
    /// Keeps one parent for each child.
    SingleParent,
    /// Unites the outputs of view rows with the same arguments.
    Congruence,
    /// Rewrites view rows to their canonical outputs.
    Cleanup,
}

/// What a rule of the given name does, if it is a rebuild rule.
pub open spec fn role_of_name(name: Seq<char>) -> Option<RoleKind> {
    if occurs_in("uf_function_index"@, name) {
        Some(RoleKind::UfIndex)
    } else if occurs_in("uf_update"@, name) {
        Some(RoleKind::PathCompress)
    } else if occurs_in("singleparent"@, name) {
        Some(RoleKind::SingleParent)
    } else if occurs_in("congruence_rule"@, name) {
        Some(RoleKind::Congruence)
    } else if occurs_in("merge_cleanup"@, name) || occurs_in("merge_rule"@, name) {
        Some(RoleKind::Cleanup)
    } else {
        None
    }
}

/// What a rule does, if it is a rebuild rule: one reads a table.
pub open spec fn role_of(rule: RuleIr) -> Option<RoleKind> {
    if has_atoms(rule.body@) {
        role_of_name(rule.name@)
    } else {
        None
    }
}

/// What a rule of the given name does, if it is a rebuild rule.
fn role_by_name(name: &str) -> (k: Option<RoleKind>)
    ensures
        k == role_of_name(name@),
{
    if contains_str(name, "uf_function_index") {
        Some(RoleKind::UfIndex)
    } else if contains_str(name, "uf_update") {
        Some(RoleKind::PathCompress)
    } else if contains_str(name, "singleparent") {
        Some(RoleKind::SingleParent)
    } else if contains_str(name, "congruence_rule") {
        Some(RoleKind::Congruence)
    } else if contains_str(name, "merge_cleanup") || contains_str(name, "merge_rule") {
        Some(RoleKind::Cleanup)
    } else {
        None
    }
}

/// The functions of a body's atoms, in order.
pub open spec fn atom_funcs(body: Seq<BodyOp>) -> Seq<FunctionId>
    decreases body.len(),
{
    if body.len() == 0 {
        Seq::empty()
    } else {
        let before = atom_funcs(body.drop_last());
        match body.last() {
            BodyOp::Atom(a) => before.push(a.func),
            _ => before,
        }
    }
}

/// The functions that a head writes rows to, in order.
pub open spec fn set_funcs(head: Seq<HeadOp>) -> Seq<FunctionId>
    decreases head.len(),
{
    if head.len() == 0 {
        Seq::empty()
    } else {
        let before = set_funcs(head.drop_last());
        match head.last() {
            HeadOp::SetRow { func, slots } => before.push(func),
            _ => before,
        }
    }
}

/// The parent relations of a rebuild rule.
pub open spec fn uf_of(rule: RuleIr) -> Set<FunctionId> {
    match role_of(rule) {
        Some(RoleKind::UfIndex) | Some(RoleKind::PathCompress) | Some(RoleKind::SingleParent) => set![
            atom_funcs(rule.body@)[0],
        ],
        Some(RoleKind::Congruence) => set_funcs(rule.head@).to_set(),
        _ => Set::empty(),
    }
}

/// The union-find index functions of a rebuild rule.
pub open spec fn uff_of(rule: RuleIr) -> Set<FunctionId> {
    match role_of(rule) {
        Some(RoleKind::UfIndex) => set_funcs(rule.head@).to_set(),
        Some(RoleKind::SingleParent) => if atom_funcs(rule.body@).len() >= 2 {
            set![atom_funcs(rule.body@)[1]]
        } else {
            Set::empty()
        },
        _ => Set::empty(),
    }
}

/// The views of a rebuild rule.
pub open spec fn views_of(rule: RuleIr) -> Set<FunctionId> {
    match role_of(rule) {
        Some(RoleKind::Congruence) | Some(RoleKind::Cleanup) => set![atom_funcs(rule.body@)[0]],
        _ => Set::empty(),
    }
}

/// A role of a table in a rebuild.
pub enum Role {
    Uf,
    Uff,
    Views,
}

/// The tables that have a role in a rule.
pub open spec fn role_set(role: Role, rule: RuleIr) -> Set<FunctionId> {
    match role {
        Role::Uf => uf_of(rule),
        Role::Uff => uff_of(rule),
        Role::Views => views_of(rule),
    }
}

/// The tables that take part in a rebuild, each once.
#[derive(Debug)]
pub struct RebuildRoles {
    /// Parent relations: child, parent, and what else there is.
    pub uf: Vec<FunctionId>,
    /// Union-find index functions: child, leader.
    pub uff: Vec<FunctionId>,
    /// View tables: arguments, output.
    pub views: Vec<FunctionId>,
}

impl RebuildRoles {
    /// No table takes part more than once in one role.
    pub open spec fn wf(&self) -> bool {
        &&& self.uf@.no_duplicates()
        &&& self.uff@.no_duplicates()
        &&& self.views@.no_duplicates()
    }

    /// No tables.
    pub fn new() -> (r: RebuildRoles)
        ensures
            r.wf(),
            r.uf@.to_set() == Set::<FunctionId>::empty(),
            r.uff@.to_set() == Set::<FunctionId>::empty(),
            r.views@.to_set() == Set::<FunctionId>::empty(),
    {
        let r = RebuildRoles { uf: Vec::new(), uff: Vec::new(), views: Vec::new() };
        assert(r.uf@.to_set() =~= Set::empty());
        assert(r.uff@.to_set() =~= Set::empty());
        assert(r.views@.to_set() =~= Set::empty());
        r
    }
}

/// Adds a function to a list, unless it is there.
fn add_role(v: &mut Vec<FunctionId>, f: FunctionId)
    requires
        old(v)@.no_duplicates(),
    ensures
        final(v)@.no_duplicates(),
        final(v)@.to_set() == old(v)@.to_set().insert(f),
{
    if !contains_func(v, f) {
        v.push(f);
    }
    proof {
        lemma_push_contains(old(v)@, f);
        assert(v@.to_set() =~= old(v)@.to_set().insert(f));
    }
}

/// Adds the functions that a head writes rows to.
fn add_sets(v: &mut Vec<FunctionId>, head: &Vec<HeadOp>)
    requires
        old(v)@.no_duplicates(),
    ensures
        final(v)@.no_duplicates(),
        final(v)@.to_set() == old(v)@.to_set().union(set_funcs(head@).to_set()),
{
    assert(head@.take(0) =~= Seq::empty());
    assert(v@.to_set() =~= v@.to_set().union(set_funcs(head@.take(0)).to_set()));
    for i in 0..head.len()
        invariant
            v@.no_duplicates(),
            v@.to_set() == old(v)@.to_set().union(set_funcs(head@.take(i as int)).to_set()),
    {
        assert(head@.take(i + 1).drop_last() =~= head@.take(i as int));
        assert(head@.take(i + 1).last() == head@[i as int]);
        let ghost before = set_funcs(head@.take(i as int));
        if let HeadOp::SetRow { func, slots: _ } = &head[i] {
            add_role(v, *func);
            proof {
                lemma_push_contains(before, *func);
                assert(before.push(*func).to_set() =~= before.to_set().insert(*func));
                assert(v@.to_set() =~= old(v)@.to_set().union(before.push(*func).to_set()));
            }
        }
    }
    assert(head@.take(head@.len() as int) =~= head@);
}

/// The functions of a body's atoms.
fn collect_atom_funcs(body: &Vec<BodyOp>) -> (funcs: Vec<FunctionId>)
    ensures
        funcs@ == atom_funcs(body@),
        funcs@.len() > 0 <==> has_atoms(body@),
{
    let mut funcs: Vec<FunctionId> = Vec::new();
    assert(body@.take(0) =~= Seq::empty());
    for i in 0..body.len()
        invariant
            funcs@ == atom_funcs(body@.take(i as int)),
            funcs@.len() > 0 <==> exists|k: int| 0 <= k < i && (#[trigger] body@[k]) is Atom,
    {
        assert(body@.take(i + 1).drop_last() =~= body@.take(i as int));
        assert(body@.take(i + 1).last() == body@[i as int]);
        if let BodyOp::Atom(a) = &body[i] {
            assert(body@[i as int] is Atom);
            funcs.push(a.func);
        }
    }
    assert(body@.take(body@.len() as int) =~= body@);
    funcs
}

/// Adds the tables of a rule to the roles, and says whether it is a rebuild rule.
pub fn classify_rule(rule: &RuleIr, roles: &mut RebuildRoles) -> (b: bool)
    requires
        old(roles).wf(),
    ensures
        final(roles).wf(),
        b == role_of(*rule) is Some,
        final(roles).uf@.to_set() == old(roles).uf@.to_set().union(uf_of(*rule)),
        final(roles).uff@.to_set() == old(roles).uff@.to_set().union(uff_of(*rule)),
        final(roles).views@.to_set() == old(roles).views@.to_set().union(views_of(*rule)),
{
    let ghost u0 = roles.uf@.to_set();
    let ghost f0 = roles.uff@.to_set();
    let ghost v0 = roles.views@.to_set();
    let atoms = collect_atom_funcs(&rule.body);
    let kind = if atoms.len() == 0 {
        None
    } else {
        role_by_name(rule.name.as_str())
    };
    assert(kind == role_of(*rule));
    match kind {
        None => {},
        Some(RoleKind::UfIndex) => {
            add_role(&mut roles.uf, atoms[0]);
            add_sets(&mut roles.uff, &rule.head);
        },
        Some(RoleKind::PathCompress) => {
            add_role(&mut roles.uf, atoms[0]);
        },
        Some(RoleKind::SingleParent) => {
            add_role(&mut roles.uf, atoms[0]);
            if atoms.len() >= 2 {
                add_role(&mut roles.uff, atoms[1]);
            }
        },
        Some(RoleKind::Congruence) => {
            add_role(&mut roles.views, atoms[0]);
            add_sets(&mut roles.uf, &rule.head);
        },
        Some(RoleKind::Cleanup) => {
            add_role(&mut roles.views, atoms[0]);
        },
    }
    assert(roles.uf@.to_set() =~= u0.union(uf_of(*rule)));
    assert(roles.uff@.to_set() =~= f0.union(uff_of(*rule)));
    assert(roles.views@.to_set() =~= v0.union(views_of(*rule)));
    kind.is_some()
}

/// Whether every rule at the given indices is a rebuild rule.
pub open spec fn all_rebuild(s: EgState, idxs: Seq<usize>) -> bool {
    forall|i: int|
        0 <= i < idxs.len() ==> (#[trigger] idxs[i]) < s.rules.len() && (
        s.rules[idxs[i] as int] matches Some(rule) && role_of(rule) is Some)
}

/// Whether some rule at the given indices has a parent relation or a view.
pub open spec fn names_a_table(s: EgState, idxs: Seq<usize>) -> bool {
    exists|i: int, f: FunctionId|
        #![trigger idxs[i], uf_of(s.rules[idxs[i] as int]->0).contains(f)]
        #![trigger idxs[i], views_of(s.rules[idxs[i] as int]->0).contains(f)]
        0 <= i < idxs.len() && (uf_of(s.rules[idxs[i] as int]->0).contains(f) || views_of(
            s.rules[idxs[i] as int]->0,
        ).contains(f))
}

/// Whether `f` has a role in some registered rebuild rule.
pub open spec fn some_rule(s: EgState, role: Role, f: FunctionId) -> bool {
    exists|i: int|
        0 <= i < s.rules.len() && ((#[trigger] s.rules[i]) matches Some(rule) && role_set(role, rule).contains(f))
}

/// Whether the roles are those of all registered rebuild rules.
pub open spec fn roles_are(s: EgState, r: &RebuildRoles) -> bool {
    &&& r.wf()
    &&& forall|f: FunctionId| #[trigger]
        r.uf@.contains(f) <==> some_rule(s, Role::Uf, f)
    &&& forall|f: FunctionId| #[trigger]
        r.uff@.contains(f) <==> some_rule(s, Role::Uff, f)
    &&& forall|f: FunctionId| #[trigger]
        r.views@.contains(f) <==> some_rule(s, Role::Views, f)
}

/// Whether some registered rebuild rule has a view that is too wide for the circuit.
pub open spec fn some_wide_view(s: EgState) -> bool {
    exists|f: FunctionId| #[trigger]
        some_rule(s, Role::Views, f) && s.tables[f.rep as int].info.arity > 3
}

/// The tables that take part in a rebuild, if every rule at the given indices is a
/// rebuild rule and no view has more than two arguments. They are those of all
/// registered rebuild rules.
pub fn recognize(eg: &EGraph, idxs: &Vec<usize>) -> (r: Option<RebuildRoles>)
    requires
        eg.wf(),
        forall|i: int|
            0 <= i < eg@.rules.len() ==> ((#[trigger] eg@.rules[i]) matches Some(rule) ==> rule_fits(
                eg@,
                rule,
            )),
    ensures
        r is Some <==> all_rebuild(eg@, idxs@) && names_a_table(eg@, idxs@) && !some_wide_view(
            eg@,
        ),
        r matches Some(roles) ==> roles_are(eg@, &roles),
{
    let ghost s = eg@;
    let mut probe = RebuildRoles::new();
    for i in 0..idxs.len()
        invariant
            s == eg@,
            probe.wf(),
            all_rebuild(s, idxs@.take(i as int)),
            forall|f: FunctionId| #[trigger]
                probe.uf@.to_set().contains(f) <==> probed(
                    s,
                    idxs@,
                    Role::Uf,
                    f,
                    i as int,
                ),
            forall|f: FunctionId| #[trigger]
                probe.views@.to_set().contains(f) <==> probed(
                    s,
                    idxs@,
                    Role::Views,
                    f,
                    i as int,
                ),
    {
        let ghost u0 = probe.uf@.to_set();
        let ghost v0 = probe.views@.to_set();
        match eg.rule(idxs[i]) {
            None => {
                assert(!all_rebuild(s, idxs@)) by {
                    assert(idxs@[i as int] >= s.rules.len() || s.rules[idxs@[i as int] as int] is None);
                }
                return None;
            },
            Some(rule) => {
                if !classify_rule(&rule, &mut probe) {
                    assert(!all_rebuild(s, idxs@)) by {
                        assert(s.rules[idxs@[i as int] as int] == Some(*rule));
                    }
                    return None;
                }
                proof {
                    assert forall|k: int| 0 <= k < i + 1 implies (#[trigger] idxs@.take(i + 1)[k])
                        < s.rules.len() && (s.rules[idxs@.take(i + 1)[k] as int] matches Some(x)
                        && role_of(x) is Some) by {
                        if k < i {
                            assert(idxs@.take(i as int)[k] == idxs@.take(i + 1)[k]);
                        }
                    }
                    assert forall|f: FunctionId| #[trigger]
                        probe.uf@.to_set().contains(f) <==> probed(
                        s,
                        idxs@,
                        Role::Uf,
                        f,
                        i + 1,
                    ) by {
                        lemma_probed(s, idxs@, Role::Uf, f, i as int);
                        assert(u0.contains(f) <==> probed(
                            s,
                            idxs@,
                            Role::Uf,
                            f,
                            i as int,
                        ));
                    }
                    assert forall|f: FunctionId| #[trigger]
                        probe.views@.to_set().contains(f) <==> probed(
                        s,
                        idxs@,
                        Role::Views,
                        f,
                        i + 1,
                    ) by {
                        lemma_probed(s, idxs@, Role::Views, f, i as int);
                        assert(v0.contains(f) <==> probed(
                            s,
                            idxs@,
                            Role::Views,
                            f,
                            i as int,
                        ));
                    }
                }
            },
        }
    }
    assert(idxs@.take(idxs@.len() as int) =~= idxs@);
    if probe.uf.len() == 0 && probe.views.len() == 0 {
        proof {
            assert(!names_a_table(s, idxs@)) by {
                if names_a_table(s, idxs@) {
                    let (i, f) = choose|i: int, f: FunctionId|
                        #![trigger idxs@[i], uf_of(s.rules[idxs@[i] as int]->0).contains(f)]
                        #![trigger idxs@[i], views_of(s.rules[idxs@[i] as int]->0).contains(f)]
                        0 <= i < idxs@.len() && (uf_of(s.rules[idxs@[i] as int]->0).contains(f)
                            || views_of(s.rules[idxs@[i] as int]->0).contains(f));
                    assert(idxs@[i] < s.rules.len());
                    if uf_of(s.rules[idxs@[i] as int]->0).contains(f) {
                        assert(role_set(Role::Uf, s.rules[idxs@[i] as int]->0).contains(f));
                        assert(probe.uf@.to_set().contains(f));
                        assert(probe.uf@.contains(f));
                    } else {
                        assert(role_set(Role::Views, s.rules[idxs@[i] as int]->0).contains(f));
                        assert(probe.views@.to_set().contains(f));
                        assert(probe.views@.contains(f));
                    }
                }
            }
        }
        return None;
    }
    proof {
        if probe.uf@.len() > 0 {
            let f = probe.uf@[0];
            assert(probe.uf@.to_set().contains(f));
            let i = choose|i: int|
                0 <= i < idxs@.len() && (#[trigger] idxs@[i]) < s.rules.len() && (
                s.rules[idxs@[i] as int] matches Some(x) && role_set(Role::Uf, x).contains(f));
            assert(uf_of(s.rules[idxs@[i] as int]->0).contains(f));
        } else {
            let f = probe.views@[0];
            assert(probe.views@.to_set().contains(f));
            let i = choose|i: int|
                0 <= i < idxs@.len() && (#[trigger] idxs@[i]) < s.rules.len() && (
                s.rules[idxs@[i] as int] matches Some(x) && role_set(Role::Views, x).contains(f));
            assert(views_of(s.rules[idxs@[i] as int]->0).contains(f));
        }
        assert(names_a_table(s, idxs@));
    }
    let roles = all_roles(eg);
    for k in 0..roles.views.len()
        invariant
            s == eg@,
            roles_are(s, &roles),
            forall|q: int|
                0 <= q < k ==> s.tables[(#[trigger] roles.views@[q]).rep as int].info.arity <= 3,
            forall|i: int|
                0 <= i < s.rules.len() ==> ((#[trigger] s.rules[i]) matches Some(rule) ==> rule_fits(
                    s,
                    rule,
                )),
    {
        let v = roles.views[k];
        proof {
            assert(roles.views@.contains(v));
            let i = choose|i: int|
                0 <= i < s.rules.len() && ((#[trigger] s.rules[i]) matches Some(rule) && role_set(Role::Views, rule).contains(v));
            lemma_view_registered(s, s.rules[i]->0, v);
        }
        if eg.info(v).arity > 3 {
            assert(some_wide_view(s)) by {
                assert(some_rule(s, Role::Views, v));
            }
            return None;
        }
    }
    proof {
        if some_wide_view(s) {
            let f = choose|f: FunctionId| #[trigger]
                some_rule(s, Role::Views, f) && s.tables[f.rep as int].info.arity > 3;
            assert(roles.views@.contains(f));
            let q = choose|q: int| 0 <= q < roles.views@.len() && roles.views@[q] == f;
            assert(s.tables[roles.views@[q].rep as int].info.arity <= 3);
        }
    }
    Some(roles)
}

/// Whether one of the first `n` rules at the given indices has `f` in a role.
spec fn probed(
    s: EgState,
    idxs: Seq<usize>,
    role: Role,
    f: FunctionId,
    n: int,
) -> bool {
    exists|i: int|
        0 <= i < n && (#[trigger] idxs[i]) < s.rules.len() && (
        s.rules[idxs[i] as int] matches Some(x) && role_set(role, x).contains(f))
}

proof fn lemma_probed(
    s: EgState,
    idxs: Seq<usize>,
    role: Role,
    f: FunctionId,
    n: int,
)
    requires
        0 <= n < idxs.len(),
    ensures
        probed(s, idxs, role, f, n + 1) <==> probed(s, idxs, role, f, n) || (idxs[n]
            < s.rules.len() && (s.rules[idxs[n] as int] matches Some(x) && role_set(role, x).contains(f))),
{
    if probed(s, idxs, role, f, n) {
        let i = choose|i: int|
            0 <= i < n && (#[trigger] idxs[i]) < s.rules.len() && (
            s.rules[idxs[i] as int] matches Some(x) && role_set(role, x).contains(f));
        assert(idxs[i] < s.rules.len());
    }
    if probed(s, idxs, role, f, n + 1) {
        let i = choose|i: int|
            0 <= i < n + 1 && (#[trigger] idxs[i]) < s.rules.len() && (
            s.rules[idxs[i] as int] matches Some(x) && role_set(role, x).contains(f));
        if i < n {
            assert(idxs[i] < s.rules.len());
        }
    }
}

/// What the roles of the first `n` registered rules are.
spec fn roles_upto(
    s: EgState,
    role: Role,
    f: FunctionId,
    n: int,
) -> bool {
    exists|i: int|
        0 <= i < n && ((#[trigger] s.rules[i]) matches Some(rule) && role_set(role, rule).contains(f))
}

proof fn lemma_roles_upto(
    s: EgState,
    role: Role,
    f: FunctionId,
    n: int,
)
    requires
        0 <= n < s.rules.len(),
    ensures
        roles_upto(s, role, f, n + 1) <==> roles_upto(s, role, f, n) || (
        s.rules[n] matches Some(rule) && role_set(role, rule).contains(f)),
{
    if roles_upto(s, role, f, n) {
        let i = choose|i: int|
            0 <= i < n && ((#[trigger] s.rules[i]) matches Some(rule) && role_set(role, rule).contains(f));
        assert(s.rules[i] is Some);
    }
    if roles_upto(s, role, f, n + 1) {
        let i = choose|i: int|
            0 <= i < n + 1 && ((#[trigger] s.rules[i]) matches Some(rule) && role_set(role, rule).contains(f));
        if i < n {
            assert(s.rules[i] is Some);
        }
    }
}

/// The roles of all registered rebuild rules.
fn all_roles(eg: &EGraph) -> (roles: RebuildRoles)
    ensures
        roles_are(eg@, &roles),
{
    let ghost s = eg@;
    let mut roles = RebuildRoles::new();
    let n: usize = eg.rule_count();
    for i in 0..n
        invariant
            s == eg@,
            n == s.rules.len(),
            roles.wf(),
            forall|f: FunctionId| #[trigger]
                roles.uf@.to_set().contains(f) <==> roles_upto(s, Role::Uf, f, i as int),
            forall|f: FunctionId| #[trigger]
                roles.uff@.to_set().contains(f) <==> roles_upto(s, Role::Uff, f, i as int),
            forall|f: FunctionId| #[trigger]
                roles.views@.to_set().contains(f) <==> roles_upto(s, Role::Views, f, i as int),
    {
        let ghost a = roles.uf@.to_set();
        let ghost b = roles.uff@.to_set();
        let ghost c = roles.views@.to_set();
        if let Some(rule) = eg.rule(i) {
            classify_rule(&rule, &mut roles);
        }
        proof {
            assert forall|f: FunctionId| #[trigger]
                roles.uf@.to_set().contains(f) <==> roles_upto(s, Role::Uf, f, i + 1) by {
                lemma_roles_upto(s, Role::Uf, f, i as int);
                assert(a.contains(f) <==> roles_upto(s, Role::Uf, f, i as int));
            }
            assert forall|f: FunctionId| #[trigger]
                roles.uff@.to_set().contains(f) <==> roles_upto(s, Role::Uff, f, i + 1) by {
                lemma_roles_upto(s, Role::Uff, f, i as int);
                assert(b.contains(f) <==> roles_upto(s, Role::Uff, f, i as int));
            }
            assert forall|f: FunctionId| #[trigger]
                roles.views@.to_set().contains(f) <==> roles_upto(s, Role::Views, f, i + 1) by {
                lemma_roles_upto(s, Role::Views, f, i as int);
                assert(c.contains(f) <==> roles_upto(s, Role::Views, f, i as int));
            }
        }
    }
    proof {
        assert forall|f: FunctionId| #[trigger] roles.uf@.contains(f) <==> some_rule(s, Role::Uf, f) by {
            assert(roles.uf@.to_set().contains(f) <==> roles_upto(s, Role::Uf, f, n as int));
        }
        assert forall|f: FunctionId| #[trigger] roles.uff@.contains(f) <==> some_rule(s, Role::Uff, f) by {
            assert(roles.uff@.to_set().contains(f) <==> roles_upto(s, Role::Uff, f, n as int));
        }
        assert forall|f: FunctionId| #[trigger] roles.views@.contains(f) <==> some_rule(
            s,
            Role::Views,
            f,
        ) by {
            assert(roles.views@.to_set().contains(f) <==> roles_upto(s, Role::Views, f, n as int));
        }
    }
    roles
}

proof fn lemma_atom_funcs_fit(s: EgState, rule: RuleIr, n: int)
    requires
        rule_fits(s, rule),
        0 <= n <= rule.body@.len(),
    ensures
        forall|i: int|
            0 <= i < atom_funcs(rule.body@.take(n)).len() ==> (#[trigger] atom_funcs(
                rule.body@.take(n),
            )[i]).rep < s.tables.len(),
        has_atoms(rule.body@.take(n)) ==> atom_funcs(rule.body@.take(n)).len() > 0,
    decreases n,
{
    if n > 0 {
        let body = rule.body@.take(n);
        assert(body.drop_last() =~= rule.body@.take(n - 1));
        assert(body.last() == rule.body@[n - 1]);
        lemma_atom_funcs_fit(s, rule, n - 1);
        let before = atom_funcs(rule.body@.take(n - 1));
        let after = atom_funcs(body);
        assert forall|i: int| 0 <= i < after.len() implies (#[trigger] after[i]).rep
            < s.tables.len() by {
            if i < before.len() {
                assert(after[i] == before[i]);
            }
        }
        if has_atoms(body) && !(body.last() is Atom) {
            let k = choose|k: int| 0 <= k < body.len() && (#[trigger] body[k]) is Atom;
            assert(rule.body@.take(n - 1)[k] == body[k]);
            assert(has_atoms(rule.body@.take(n - 1)));
        }
    }
}

/// The views of a rule that fits are registered.
proof fn lemma_view_registered(s: EgState, rule: RuleIr, f: FunctionId)
    requires
        rule_fits(s, rule),
        views_of(rule).contains(f),
    ensures
        f.rep < s.tables.len(),
{
    assert(rule.body@.take(rule.body@.len() as int) =~= rule.body@);
    lemma_atom_funcs_fit(s, rule, rule.body@.len() as int);
    assert(f == atom_funcs(rule.body@)[0]);
}

// ---------------------------------------------------------------------------
// What the circuit is fed
// ---------------------------------------------------------------------------

/// The tag of a view.
pub open spec fn tag_of(tags: Seq<FunctionId>, f: FunctionId) -> u64 {
    (FIRST_TAG + tags.index_of(f)) as u64
}

/// A view row as the circuit carries it: the tag, two arguments and the output.
pub open spec fn view_quad(tag: u64, row: Seq<u32>, arity: nat) -> (u64, u64, u64, u64) {
    (
        tag,
        row[0] as u64,
        if arity >= 3 {
            row[1] as u64
        } else {
            NO_ARG
        },
        row[arity - 1] as u64,
    )
}

/// Whether `q` stands for a row of one of the views.
pub open spec fn is_view_row(
    s: EgState,
    views: Seq<FunctionId>,
    tags: Seq<FunctionId>,
    q: (u64, u64, u64, u64),
) -> bool {
    exists|i: int, row: Seq<u32>|
        #![trigger views[i], s.tables[views[i].rep as int].rows.contains(row)]
        0 <= i < views.len() && s.tables[views[i].rep as int].rows.contains(row)
            && s.tables[views[i].rep as int].info.arity > 0 && q == view_quad(
            tag_of(tags, views[i]),
            row,
            s.tables[views[i].rep as int].info.arity,
        )
}

/// The rows of the views, as the circuit carries them.
pub open spec fn view_rows(
    s: EgState,
    views: Seq<FunctionId>,
    tags: Seq<FunctionId>,
) -> Set<(u64, u64, u64, u64)> {
    Set::new(|q: (u64, u64, u64, u64)| is_view_row(s, views, tags, q))
}

/// A pair with the smaller id first.
pub open spec fn normalized(a: u64, b: u64) -> (u64, u64) {
    if a <= b {
        (a, b)
    } else {
        (b, a)
    }
}

/// Whether `p` is an edge of one of the parent relations.
pub open spec fn is_seed(s: EgState, ufs: Seq<FunctionId>, p: (u64, u64)) -> bool {
    exists|i: int, row: Seq<u32>|
        #![trigger ufs[i], s.tables[ufs[i].rep as int].rows.contains(row)]
        0 <= i < ufs.len() && s.tables[ufs[i].rep as int].rows.contains(row) && p == normalized(
            row[0] as u64,
            row[1] as u64,
        )
}

/// Whether the roles fit the tables: a parent relation has a child and a parent, an
/// index function a child and a leader, and a view at most two arguments.
pub open spec fn roles_fit(s: EgState, r: &RebuildRoles) -> bool {
    &&& r.wf()
    &&& forall|i: int|
        0 <= i < r.uf@.len() ==> (#[trigger] r.uf@[i]).rep < s.tables.len() && s.tables[r.uf@[i].rep as int].info.arity
            >= 2
    &&& forall|i: int|
        0 <= i < r.uff@.len() ==> (#[trigger] r.uff@[i]).rep < s.tables.len()
            && s.tables[r.uff@[i].rep as int].info.arity == 2
    &&& forall|i: int|
        0 <= i < r.views@.len() ==> (#[trigger] r.views@[i]).rep < s.tables.len()
            && s.tables[r.views@[i].rep as int].info.arity <= 3
}

/// Whether `d` is the change from one set of view rows to another.
pub open spec fn is_quad_delta(
    d: Seq<((u64, u64, u64, u64), i64)>,
    from: Set<(u64, u64, u64, u64)>,
    to: Set<(u64, u64, u64, u64)>,
) -> bool {
    &&& d.no_duplicates()
    &&& forall|e: ((u64, u64, u64, u64), i64)| #[trigger]
        d.contains(e) <==> (e.1 == 1 && to.contains(e.0) && !from.contains(e.0)) || (e.1 == -1
            && from.contains(e.0) && !to.contains(e.0))
}

/// What a rebuild circuit is to be fed.
#[derive(Debug)]
pub struct RebuildInput {
    /// View rows with the weight of their change.
    pub views: Vec<((u64, u64, u64, u64), i64)>,
    /// Union edges that are new.
    pub unions: Vec<(u64, u64)>,
}

/// The congruence edges did not run out.
#[derive(Clone, Copy, Debug, PartialEq, Eq, Structural)]
pub struct NotConverged;

/// What a rebuild circuit was fed so far.
#[derive(Debug)]
pub struct RebuildCache {
    pushed: PairSet,
    fed_views: QuadSet,
    fed_seeds: PairSet,
    tags: Vec<FunctionId>,
    steps: usize,
}

/// What a circuit is fed for a run, and what it has been fed then: the changes of the view rows, and
/// the edges of the parent relations that were not seen before.
pub open spec fn takes_input(
    c: RebuildCache,
    s: EgState,
    roles: &RebuildRoles,
    c2: RebuildCache,
    inp: &RebuildInput,
) -> bool {
    &&& c.tags().is_prefix_of(c2.tags())
    &&& forall|f: FunctionId| #[trigger]
        c2.tags().contains(f) <==> c.tags().contains(f) || roles.views@.contains(f)
    &&& c2.fed_views() == view_rows(s, roles.views@, c2.tags())
    &&& is_quad_delta(inp.views@, c.fed_views(), c2.fed_views())
    &&& inp.unions@.no_duplicates()
    &&& forall|p: (u64, u64)| #[trigger]
        inp.unions@.contains(p) <==> is_seed(s, roles.uf@, p) && !c.fed_seeds().contains(p)
            && !c.pushed().contains(p)
    &&& forall|p: (u64, u64)| #[trigger]
        c2.fed_seeds().contains(p) <==> c.fed_seeds().contains(p) || is_seed(s, roles.uf@, p)
    &&& forall|p: (u64, u64)| #[trigger]
        c2.pushed().contains(p) <==> c.pushed().contains(p) || (is_seed(s, roles.uf@, p)
            && !c.fed_seeds().contains(p))
    &&& c2.steps() == 1
}

impl RebuildCache {
    /// The union edges that the circuit was fed, from the tables or as congruences.
    pub closed spec fn pushed(&self) -> Set<(u64, u64)> {
        self.pushed@
    }

    /// The view rows that the circuit holds.
    pub closed spec fn fed_views(&self) -> Set<(u64, u64, u64, u64)> {
        self.fed_views@
    }

    /// The edges of parent relations that were seen.
    pub closed spec fn fed_seeds(&self) -> Set<(u64, u64)> {
        self.fed_seeds@
    }

    /// The views in the order of their tags.
    pub closed spec fn tags(&self) -> Seq<FunctionId> {
        self.tags@
    }

    /// How often the circuit was stepped in this run.
    pub closed spec fn steps(&self) -> nat {
        self.steps as nat
    }

    /// Every view has a tag of its own, and the edges of parent relations that were seen were fed.
    pub open spec fn wf(&self) -> bool {
        &&& self.tags().no_duplicates()
        &&& forall|p: (u64, u64)| #[trigger]
            self.fed_seeds().contains(p) ==> self.pushed().contains(p)
    }

    /// The cache of a circuit that was fed nothing.
    pub fn new() -> (c: RebuildCache)
        ensures
            c.wf(),
            c.pushed() == Set::<(u64, u64)>::empty(),
            c.fed_views() == Set::<(u64, u64, u64, u64)>::empty(),
            c.fed_seeds() == Set::<(u64, u64)>::empty(),
            c.tags() == Seq::<FunctionId>::empty(),
            c.steps() == 0,
    {
        RebuildCache {
            pushed: PairSet::new(),
            fed_views: QuadSet::new(),
            fed_seeds: PairSet::new(),
            tags: Vec::new(),
            steps: 0,
        }
    }

    /// Gives every view that has none a tag, in the order of their ids.
    fn assign_tags(&mut self, eg: &EGraph, roles: &RebuildRoles)
        requires
            old(self).wf(),
            eg.wf(),
            roles_fit(eg@, roles),
        ensures
            final(self).wf(),
            *final(self) == (RebuildCache { tags: final(self).tags, ..*old(self) }),
            old(self).tags().is_prefix_of(final(self).tags()),
            forall|f: FunctionId| #[trigger]
                final(self).tags().contains(f) <==> old(self).tags().contains(f)
                    || roles.views@.contains(f),
    {
        let n: usize = eg.table_count();
        let ghost t0 = self.tags@;
        proof {
            eg.lemma_wf();
        }
        for i in 0..n
            invariant
                n == eg@.tables.len(),
                n <= u32::MAX + 1,
                t0 == old(self).tags@,
                *self == (RebuildCache { tags: self.tags, ..*old(self) }),
                self.tags@.no_duplicates(),
                t0.is_prefix_of(self.tags@),
                forall|f: FunctionId| #[trigger]
                    self.tags@.contains(f) <==> t0.contains(f) || (roles.views@.contains(f) && f.rep
                        < i),
        {
            let f = FunctionId::new(i as u32);
            let ghost before = self.tags@;
            if contains_func(&roles.views, f) && !contains_func(&self.tags, f) {
                self.tags.push(f);
                proof {
                    lemma_push_contains(before, f);
                }
            }
            assert forall|g: FunctionId| #[trigger] self.tags@.contains(g) <==> t0.contains(g) || (
            roles.views@.contains(g) && g.rep < i + 1) by {
                if g.rep == i {
                    assert(g == f);
                }
            }
        }
        assert forall|f: FunctionId| #[trigger] self.tags@.contains(f) <==> t0.contains(f)
            || roles.views@.contains(f) by {
            if roles.views@.contains(f) {
                let k = choose|k: int| 0 <= k < roles.views@.len() && roles.views@[k] == f;
                assert(roles.views@[k].rep < eg@.tables.len());
            }
        }
        proof {
            assert(self.fed_seeds() == old(self).fed_seeds());
            assert(self.pushed() == old(self).pushed());
        }
    }

    /// The tag of a view that has one.
    fn tag(&self, f: FunctionId) -> (t: u64)
        requires
            self.wf(),
            self.tags().contains(f),
        ensures
            t == tag_of(self.tags(), f),
            t >= FIRST_TAG,
            t - FIRST_TAG < self.tags().len(),
            self.tags()[t - FIRST_TAG] == f,
    {
        let mut i: usize = 0;
        proof {
            lemma_few_functions(self.tags@);
        }
        while i < self.tags.len() && self.tags[i] != f
            invariant
                i <= self.tags@.len(),
                forall|k: int| 0 <= k < i ==> self.tags@[k] != f,
            decreases self.tags@.len() - i,
        {
            i = i + 1;
        }
        proof {
            let k = choose|k: int| 0 <= k < self.tags@.len() && self.tags@[k] == f;
            assert(i <= k);
            assert(self.tags@[i as int] == f);
            assert(self.tags@.index_of(f) == i);
        }
        FIRST_TAG + i as u64
    }

    /// The rows of the views, as the circuit carries them.
    fn current_views(&self, eg: &EGraph, roles: &RebuildRoles) -> (cur: QuadSet)
        requires
            self.wf(),
            eg.wf(),
            roles_fit(eg@, roles),
            forall|f: FunctionId| #[trigger]
                roles.views@.contains(f) ==> self.tags().contains(f),
        ensures
            cur@ == view_rows(eg@, roles.views@, self.tags()),
    {
        let ghost s = eg@;
        let ghost vs = roles.views@;
        let ghost tags = self.tags();
        let mut cur = QuadSet::new();
        proof {
            eg.lemma_wf();
        }
        for i in 0..roles.views.len()
            invariant
                s == eg@,
                s.wf(),
                eg.wf(),
                self.wf(),
                vs == roles.views@,
                tags == self.tags(),
                roles_fit(s, roles),
                forall|f: FunctionId| #[trigger] vs.contains(f) ==> tags.contains(f),
                forall|q: (u64, u64, u64, u64)| #[trigger]
                    cur@.contains(q) <==> is_view_row(s, vs.take(i as int), tags, q),
        {
            let v = roles.views[i];
            let f: usize = v.rep as usize;
            assert(vs.contains(vs[i as int]));
            assert(table_ok(s.tables[f as int]));
            let arity: usize = eg.info(v).arity;
            let ghost t = s.tables[f as int];
            let ghost cur0 = cur@;
            if arity > 0 {
                let tag: u64 = self.tag(v);
                let rows = eg.table(f).rows();
                let ghost rv = row_views(rows@);
                for k in 0..rows.len()
                    invariant
                        rv == row_views(rows@),
                        rv.to_set() == t.rows,
                        t == s.tables[f as int],
                        table_ok(t),
                        arity == t.info.arity,
                        0 < arity <= 3,
                        forall|q: (u64, u64, u64, u64)| #[trigger]
                            cur@.contains(q) <==> cur0.contains(q) || exists|j: int|
                                0 <= j < k && q == view_quad(tag, #[trigger] rv[j], arity as nat),
                {
                    let row = &rows[k];
                    assert(rv[k as int] == row@);
                    assert(rv.to_set().contains(rv[k as int]));
                    let ghost before = cur@;
                    let a0: u64 = row[0] as u64;
                    let a1: u64 = if arity >= 3 {
                        row[1] as u64
                    } else {
                        NO_ARG
                    };
                    let out: u64 = row[arity - 1] as u64;
                    cur.insert((tag, a0, a1, out));
                    assert forall|q: (u64, u64, u64, u64)| #[trigger] cur@.contains(q) <==>
                        cur0.contains(q) || exists|j: int|
                        0 <= j < k + 1 && q == view_quad(tag, #[trigger] rv[j], arity as nat) by {
                        if before.contains(q) && !cur0.contains(q) {
                            let j = choose|j: int|
                                0 <= j < k && q == view_quad(tag, #[trigger] rv[j], arity as nat);
                            assert(q == view_quad(tag, rv[j], arity as nat));
                        }
                        if q == (tag, a0, a1, out) {
                            assert(q == view_quad(tag, rv[k as int], arity as nat));
                        }
                    }
                }
                assert forall|q: (u64, u64, u64, u64)| #[trigger] cur@.contains(q) <==> is_view_row(
                    s,
                    vs.take(i + 1),
                    tags,
                    q,
                ) by {
                    lemma_view_row_step(s, vs, tags, q, i as int);
                    if exists|j: int|
                        0 <= j < rv.len() && q == view_quad(tag, #[trigger] rv[j], arity as nat) {
                        let j = choose|j: int|
                            0 <= j < rv.len() && q == view_quad(tag, #[trigger] rv[j], arity as nat);
                        assert(rv.to_set().contains(rv[j]));
                    }
                    if exists|row: Seq<u32>| #[trigger]
                        t.rows.contains(row) && q == view_quad(tag, row, arity as nat) {
                        let row = choose|row: Seq<u32>| #[trigger]
                            t.rows.contains(row) && q == view_quad(tag, row, arity as nat);
                        assert(rv.contains(row));
                        let j = choose|j: int| 0 <= j < rv.len() && rv[j] == row;
                        assert(q == view_quad(tag, rv[j], arity as nat));
                    }
                }
            } else {
                assert forall|q: (u64, u64, u64, u64)| #[trigger] cur@.contains(q) <==> is_view_row(
                    s,
                    vs.take(i + 1),
                    tags,
                    q,
                ) by {
                    lemma_view_row_step(s, vs, tags, q, i as int);
                }
            }
        }
        assert(vs.take(roles.views@.len() as int) =~= vs);
        assert(cur@ =~= view_rows(s, vs, tags));
        cur
    }

    /// What the circuit is to be fed: the changes of the view rows, and the edges of
    /// the parent relations that were not seen before.
    pub fn rebuild_input(&mut self, eg: &EGraph, roles: &RebuildRoles) -> (inp: RebuildInput)
        requires
            old(self).wf(),
            eg.wf(),
            roles_fit(eg@, roles),
        ensures
            final(self).wf(),
            takes_input(*old(self), eg@, roles, *final(self), &inp),
    {
        self.assign_tags(eg, roles);
        let cur = self.current_views(eg, roles);
        let views = quad_delta(&self.fed_views, &cur);
        self.fed_views = cur;
        self.steps = 1;
        let ghost s = eg@;
        let ghost ufs = roles.uf@;
        let mut unions: Vec<(u64, u64)> = Vec::new();
        proof {
            eg.lemma_wf();
        }
        let ghost mid = *self;
        for i in 0..roles.uf.len()
            invariant
                s == eg@,
                s.wf(),
                eg.wf(),
                ufs == roles.uf@,
                roles_fit(s, roles),
                *self == (RebuildCache {
                    fed_seeds: self.fed_seeds,
                    pushed: self.pushed,
                    ..mid
                }),
                unions@.no_duplicates(),
                forall|p: (u64, u64)| #[trigger]
                    unions@.contains(p) <==> is_seed(s, ufs.take(i as int), p)
                        && !mid.fed_seeds@.contains(p) && !mid.pushed@.contains(p),
                forall|p: (u64, u64)| #[trigger]
                    self.fed_seeds@.contains(p) <==> mid.fed_seeds@.contains(p) || is_seed(
                        s,
                        ufs.take(i as int),
                        p,
                    ),
                forall|p: (u64, u64)| #[trigger]
                    self.pushed@.contains(p) <==> mid.pushed@.contains(p) || (is_seed(
                        s,
                        ufs.take(i as int),
                        p,
                    ) && !mid.fed_seeds@.contains(p)),
        {
            let f: usize = roles.uf[i].rep as usize;
            assert(ufs[i as int].rep < s.tables.len());
            assert(table_ok(s.tables[f as int]));
            let ghost t = s.tables[f as int];
            let rows = eg.table(f).rows();
            let ghost rv = row_views(rows@);
            for k in 0..rows.len()
                invariant
                    0 <= i < ufs.len(),
                    rv == row_views(rows@),
                    rv.to_set() == t.rows,
                    t == s.tables[f as int],
                    table_ok(t),
                    t.info.arity >= 2,
                    *self == (RebuildCache {
                        fed_seeds: self.fed_seeds,
                        pushed: self.pushed,
                        ..mid
                    }),
                    unions@.no_duplicates(),
                    forall|p: (u64, u64)| #[trigger]
                        unions@.contains(p) <==> (is_seed(s, ufs.take(i as int), p) || edge_in(
                            rv,
                            p,
                            k as int,
                        )) && !mid.fed_seeds@.contains(p) && !mid.pushed@.contains(p),
                    forall|p: (u64, u64)| #[trigger]
                        self.fed_seeds@.contains(p) <==> mid.fed_seeds@.contains(p) || is_seed(
                            s,
                            ufs.take(i as int),
                            p,
                        ) || edge_in(rv, p, k as int),
                    forall|p: (u64, u64)| #[trigger]
                        self.pushed@.contains(p) <==> mid.pushed@.contains(p) || ((is_seed(
                            s,
                            ufs.take(i as int),
                            p,
                        ) || edge_in(rv, p, k as int)) && !mid.fed_seeds@.contains(p)),
            {
                let row = &rows[k];
                assert(rv[k as int] == row@);
                assert(rv.to_set().contains(rv[k as int]));
                let p = normalize(row[0] as u64, row[1] as u64);
                let ghost u0 = unions@;
                let ghost f0 = self.fed_seeds@;
                let ghost p0 = self.pushed@;
                assert(u0.contains(p) ==> f0.contains(p));
                if self.fed_seeds.insert(p) {
                    if self.pushed.insert(p) {
                        unions.push(p);
                        proof {
                            lemma_push_contains(u0, p);
                        }
                    }
                }
                proof {
                    assert forall|q: (u64, u64)| #[trigger] edge_in(rv, q, k + 1) <==> edge_in(
                        rv,
                        q,
                        k as int,
                    ) || q == p by {
                        lemma_edge_in(rv, q, k as int);
                    }
                    assert forall|q: (u64, u64)| #[trigger] self.fed_seeds@.contains(q) <==>
                        mid.fed_seeds@.contains(q) || is_seed(s, ufs.take(i as int), q) || edge_in(
                        rv,
                        q,
                        k + 1,
                    ) by {
                        assert(f0.contains(q) <==> mid.fed_seeds@.contains(q) || is_seed(
                            s,
                            ufs.take(i as int),
                            q,
                        ) || edge_in(rv, q, k as int));
                    }
                    assert forall|q: (u64, u64)| #[trigger] self.pushed@.contains(q) <==>
                        mid.pushed@.contains(q) || ((is_seed(s, ufs.take(i as int), q) || edge_in(
                        rv,
                        q,
                        k + 1,
                    )) && !mid.fed_seeds@.contains(q)) by {
                        assert(p0.contains(q) <==> mid.pushed@.contains(q) || ((is_seed(
                            s,
                            ufs.take(i as int),
                            q,
                        ) || edge_in(rv, q, k as int)) && !mid.fed_seeds@.contains(q)));
                    }
                    assert forall|q: (u64, u64)| #[trigger] unions@.contains(q) <==> (is_seed(
                        s,
                        ufs.take(i as int),
                        q,
                    ) || edge_in(rv, q, k + 1)) && !mid.fed_seeds@.contains(q)
                        && !mid.pushed@.contains(q) by {
                        assert(u0.contains(q) <==> (is_seed(s, ufs.take(i as int), q) || edge_in(
                            rv,
                            q,
                            k as int,
                        )) && !mid.fed_seeds@.contains(q) && !mid.pushed@.contains(q));
                        assert(f0.contains(q) <==> mid.fed_seeds@.contains(q) || is_seed(
                            s,
                            ufs.take(i as int),
                            q,
                        ) || edge_in(rv, q, k as int));
                        assert(p0.contains(q) <==> mid.pushed@.contains(q) || ((is_seed(
                            s,
                            ufs.take(i as int),
                            q,
                        ) || edge_in(rv, q, k as int)) && !mid.fed_seeds@.contains(q)));
                    }
                }
            }
            proof {
                assert forall|q: (u64, u64)| #[trigger] is_seed(s, ufs.take(i + 1), q) <==> is_seed(
                    s,
                    ufs.take(i as int),
                    q,
                ) || edge_in(rv, q, rv.len() as int) by {
                    lemma_seed_step(s, ufs, q, i as int, rv);
                }
            }
        }
        assert(ufs.take(roles.uf@.len() as int) =~= ufs);
        proof {
            assert forall|p: (u64, u64)| #[trigger] self.fed_seeds().contains(p) implies self.pushed().contains(
                p,
            ) by {
                if mid.fed_seeds@.contains(p) {
                    assert(old(self).fed_seeds().contains(p));
                    assert(mid.pushed@.contains(p));
                }
                assert(self.pushed@.contains(p));
            }
        }
        RebuildInput { views, unions }
    }

    /// The congruence edges that go back to the circuit's input: those of positive
    /// weight that were never fed. None of them ends the run.
    pub fn next_edges(&mut self, congru: &Vec<((u64, u64), i64)>) -> (r: Result<
        Vec<(u64, u64)>,
        NotConverged,
    >)
        requires
            old(self).wf(),
        ensures
            final(self).wf(),
            final(self).tags() == old(self).tags(),
            final(self).fed_views() == old(self).fed_views(),
            final(self).fed_seeds() == old(self).fed_seeds(),
            r is Err <==> old(self).steps() > MAX_STEPS,
            r is Err ==> final(self).pushed() == old(self).pushed() && final(self).steps() == old(
                self,
            ).steps(),
            r matches Ok(edges) ==> {
                &&& edges@ == new_edges(old(self).pushed(), congru@).1
                &&& final(self).pushed() == new_edges(old(self).pushed(), congru@).0
                &&& final(self).steps() == old(self).steps() + (if edges@.len() > 0 {
                    1int
                } else {
                    0
                })
            },
    {
        if self.steps > MAX_STEPS {
            return Err(NotConverged);
        }
        let ghost p0 = self.pushed@;
        let mut edges: Vec<(u64, u64)> = Vec::new();
        assert(congru@.take(0) =~= Seq::empty());
        for i in 0..congru.len()
            invariant
                *self == (RebuildCache { pushed: self.pushed, ..*old(self) }),
                p0 == old(self).pushed@,
                self.pushed@ == new_edges(p0, congru@.take(i as int)).0,
                edges@ == new_edges(p0, congru@.take(i as int)).1,
        {
            assert(congru@.take(i + 1).drop_last() =~= congru@.take(i as int));
            assert(congru@.take(i + 1).last() == congru@[i as int]);
            let ((a, b), w) = congru[i];
            if w > 0 {
                let key = normalize(a, b);
                if self.pushed.insert(key) {
                    edges.push((a, b));
                } else {
                    assert(new_edges(p0, congru@.take(i as int)).0.insert(key) =~= new_edges(
                        p0,
                        congru@.take(i as int),
                    ).0);
                }
            }
        }
        assert(congru@.take(congru@.len() as int) =~= congru@);
        if edges.len() > 0 {
            self.steps = self.steps + 1;
        }
        proof {
            lemma_new_edges_grow(p0, congru@);
            assert(self.fed_seeds() == old(self).fed_seeds());
        }
        Ok(edges)
    }
}

/// The edges that were fed, and the new ones in order, once congruence edges are read.
pub open spec fn new_edges(pushed: Set<(u64, u64)>, congru: Seq<((u64, u64), i64)>) -> (
    Set<(u64, u64)>,
    Seq<(u64, u64)>,
)
    decreases congru.len(),
{
    if congru.len() == 0 {
        (pushed, Seq::empty())
    } else {
        let before = new_edges(pushed, congru.drop_last());
        let e = congru.last().0;
        let key = normalized(e.0, e.1);
        if congru.last().1 > 0 && !before.0.contains(key) {
            (before.0.insert(key), before.1.push(e))
        } else {
            before
        }
    }
}

/// Edges that were fed stay.
pub proof fn lemma_new_edges_grow(pushed: Set<(u64, u64)>, congru: Seq<((u64, u64), i64)>)
    ensures
        pushed.subset_of(new_edges(pushed, congru).0),
    decreases congru.len(),
{
    if congru.len() > 0 {
        lemma_new_edges_grow(pushed, congru.drop_last());
    }
}

/// Where no congruence goes back to the circuit, all of them were fed.
pub proof fn quiet_means_closed(pushed: Set<(u64, u64)>, congru: Seq<((u64, u64), i64)>, i: int)
    requires
        new_edges(pushed, congru).1.len() == 0,
        0 <= i < congru.len(),
        congru[i].1 > 0,
    ensures
        pushed.contains(normalized(congru[i].0.0, congru[i].0.1)),
        new_edges(pushed, congru).0 == pushed,
    decreases congru.len(),
{
    let front = congru.drop_last();
    lemma_quiet_front(pushed, front);
    if i < front.len() {
        assert(front[i] == congru[i]);
        quiet_means_closed(pushed, front, i);
    }
}

proof fn lemma_quiet_front(pushed: Set<(u64, u64)>, front: Seq<((u64, u64), i64)>)
    ensures
        new_edges(pushed, front).1.len() == 0 ==> new_edges(pushed, front).0 == pushed,
    decreases front.len(),
{
    if front.len() > 0 {
        lemma_quiet_front(pushed, front.drop_last());
    }
}

/// Whether the roles fit the tables.
pub fn roles_are_fit(eg: &EGraph, r: &RebuildRoles) -> (b: bool)
    requires
        eg.wf(),
        r.wf(),
    ensures
        b == roles_fit(eg@, r),
{
    let n: usize = eg.table_count();
    for i in 0..r.uf.len()
        invariant
            eg.wf(),
            n == eg@.tables.len(),
            forall|k: int|
                0 <= k < i ==> (#[trigger] r.uf@[k]).rep < n
                    && eg@.tables[r.uf@[k].rep as int].info.arity >= 2,
    {
        if r.uf[i].rep as usize >= n || eg.info(r.uf[i]).arity < 2 {
            return false;
        }
    }
    for i in 0..r.uff.len()
        invariant
            eg.wf(),
            n == eg@.tables.len(),
            forall|k: int|
                0 <= k < i ==> (#[trigger] r.uff@[k]).rep < n
                    && eg@.tables[r.uff@[k].rep as int].info.arity == 2,
    {
        if r.uff[i].rep as usize >= n || eg.info(r.uff[i]).arity != 2 {
            return false;
        }
    }
    for i in 0..r.views.len()
        invariant
            eg.wf(),
            n == eg@.tables.len(),
            forall|k: int|
                0 <= k < i ==> (#[trigger] r.views@[k]).rep < n
                    && eg@.tables[r.views@[k].rep as int].info.arity <= 3,
    {
        if r.views[i].rep as usize >= n || eg.info(r.views[i]).arity > 3 {
            return false;
        }
    }
    true
}

/// A pair with the smaller id first.
fn normalize(a: u64, b: u64) -> (p: (u64, u64))
    ensures
        p == normalized(a, b),
{
    if a <= b {
        (a, b)
    } else {
        (b, a)
    }
}

/// Whether one of the first `n` rows is an edge.
spec fn edge_in(rows: Seq<Seq<u32>>, p: (u64, u64), n: int) -> bool {
    exists|k: int| 0 <= k < n && p == normalized((#[trigger] rows[k])[0] as u64, rows[k][1] as u64)
}

proof fn lemma_edge_in(rows: Seq<Seq<u32>>, p: (u64, u64), n: int)
    requires
        0 <= n < rows.len(),
    ensures
        edge_in(rows, p, n + 1) <==> edge_in(rows, p, n) || p == normalized(
            rows[n][0] as u64,
            rows[n][1] as u64,
        ),
{
    if edge_in(rows, p, n) {
        let k = choose|k: int|
            0 <= k < n && p == normalized((#[trigger] rows[k])[0] as u64, rows[k][1] as u64);
        assert(p == normalized(rows[k][0] as u64, rows[k][1] as u64));
    }
    if edge_in(rows, p, n + 1) {
        let k = choose|k: int|
            0 <= k < n + 1 && p == normalized((#[trigger] rows[k])[0] as u64, rows[k][1] as u64);
        if k < n {
            assert(p == normalized(rows[k][0] as u64, rows[k][1] as u64));
        }
    }
}

proof fn lemma_seed_step(
    s: EgState,
    ufs: Seq<FunctionId>,
    p: (u64, u64),
    i: int,
    rv: Seq<Seq<u32>>,
)
    requires
        0 <= i < ufs.len(),
        rv.to_set() == s.tables[ufs[i].rep as int].rows,
    ensures
        is_seed(s, ufs.take(i + 1), p) <==> is_seed(s, ufs.take(i), p) || edge_in(
            rv,
            p,
            rv.len() as int,
        ),
{
    let a = ufs.take(i);
    let b = ufs.take(i + 1);
    if is_seed(s, a, p) {
        let (k, row) = choose|k: int, row: Seq<u32>|
            #![trigger a[k], s.tables[a[k].rep as int].rows.contains(row)]
            0 <= k < a.len() && s.tables[a[k].rep as int].rows.contains(row) && p == normalized(
                row[0] as u64,
                row[1] as u64,
            );
        assert(b[k] == a[k]);
        assert(s.tables[b[k].rep as int].rows.contains(row));
    }
    if edge_in(rv, p, rv.len() as int) {
        let k = choose|k: int|
            0 <= k < rv.len() && p == normalized((#[trigger] rv[k])[0] as u64, rv[k][1] as u64);
        assert(rv.to_set().contains(rv[k]));
        assert(b[i] == ufs[i]);
        assert(s.tables[b[i].rep as int].rows.contains(rv[k]));
    }
    if is_seed(s, b, p) {
        let (k, row) = choose|k: int, row: Seq<u32>|
            #![trigger b[k], s.tables[b[k].rep as int].rows.contains(row)]
            0 <= k < b.len() && s.tables[b[k].rep as int].rows.contains(row) && p == normalized(
                row[0] as u64,
                row[1] as u64,
            );
        if k < i {
            assert(a[k] == b[k]);
            assert(s.tables[a[k].rep as int].rows.contains(row));
        } else {
            assert(rv.contains(row));
            let q = choose|q: int| 0 <= q < rv.len() && rv[q] == row;
            assert(p == normalized(rv[q][0] as u64, rv[q][1] as u64));
        }
    }
}

proof fn lemma_view_row_step(
    s: EgState,
    vs: Seq<FunctionId>,
    tags: Seq<FunctionId>,
    q: (u64, u64, u64, u64),
    i: int,
)
    requires
        0 <= i < vs.len(),
    ensures
        is_view_row(s, vs.take(i + 1), tags, q) <==> is_view_row(s, vs.take(i), tags, q) || (
        s.tables[vs[i].rep as int].info.arity > 0 && exists|row: Seq<u32>| #[trigger]
            s.tables[vs[i].rep as int].rows.contains(row) && q == view_quad(
                tag_of(tags, vs[i]),
                row,
                s.tables[vs[i].rep as int].info.arity,
            )),
{
    let a = vs.take(i);
    let b = vs.take(i + 1);
    assert(b[i] == vs[i]);
    if is_view_row(s, a, tags, q) {
        let (k, row) = choose|k: int, row: Seq<u32>|
            #![trigger a[k], s.tables[a[k].rep as int].rows.contains(row)]
            0 <= k < a.len() && s.tables[a[k].rep as int].rows.contains(row)
                && s.tables[a[k].rep as int].info.arity > 0 && q == view_quad(
                tag_of(tags, a[k]),
                row,
                s.tables[a[k].rep as int].info.arity,
            );
        assert(b[k] == a[k]);
        assert(s.tables[b[k].rep as int].rows.contains(row));
    }
    if s.tables[vs[i].rep as int].info.arity > 0 && exists|row: Seq<u32>| #[trigger]
        s.tables[vs[i].rep as int].rows.contains(row) && q == view_quad(
            tag_of(tags, vs[i]),
            row,
            s.tables[vs[i].rep as int].info.arity,
        ) {
        let row = choose|row: Seq<u32>| #[trigger]
            s.tables[vs[i].rep as int].rows.contains(row) && q == view_quad(
                tag_of(tags, vs[i]),
                row,
                s.tables[vs[i].rep as int].info.arity,
            );
        assert(s.tables[b[i].rep as int].rows.contains(row));
    }
    if is_view_row(s, b, tags, q) {
        let (k, row) = choose|k: int, row: Seq<u32>|
            #![trigger b[k], s.tables[b[k].rep as int].rows.contains(row)]
            0 <= k < b.len() && s.tables[b[k].rep as int].rows.contains(row)
                && s.tables[b[k].rep as int].info.arity > 0 && q == view_quad(
                tag_of(tags, b[k]),
                row,
                s.tables[b[k].rep as int].info.arity,
            );
        if k < i {
            assert(a[k] == b[k]);
            assert(s.tables[a[k].rep as int].rows.contains(row));
        }
    }
}

/// There are not more functions than ids.
pub proof fn lemma_few_functions(fs: Seq<FunctionId>)
    requires
        fs.no_duplicates(),
    ensures
        fs.len() <= u32::MAX + 1,
{
    let ids = fs.map_values(|f: FunctionId| f.rep as int);
    assert(ids.no_duplicates()) by {
        assert forall|i: int, j: int| 0 <= i < ids.len() && 0 <= j < ids.len() && i != j implies
            ids[i] != ids[j] by {
            assert(fs[i] != fs[j]);
        }
    }
    ids.unique_seq_to_set();
    vstd::set_lib::lemma_int_range(0, u32::MAX + 1);
    let range = vstd::set_lib::set_int_range(0, u32::MAX + 1);
    assert(ids.to_set().subset_of(range)) by {
        assert forall|x: int| ids.to_set().contains(x) implies range.contains(x) by {
            let k = choose|k: int| 0 <= k < ids.len() && ids[k] == x;
        }
    }
    vstd::set_lib::lemma_len_subset(ids.to_set(), range);
}

/// The change from one set of view rows to another.
fn quad_delta(from: &QuadSet, to: &QuadSet) -> (d: Vec<((u64, u64, u64, u64), i64)>)
    ensures
        is_quad_delta(d@, from@, to@),
{
    let mut d: Vec<((u64, u64, u64, u64), i64)> = Vec::new();
    let added = to.members();
    assert(added@.take(0) =~= Seq::empty());
    for k in 0..added.len()
        invariant
            added@.no_duplicates(),
            d@.no_duplicates(),
            forall|e: ((u64, u64, u64, u64), i64)| #[trigger]
                d@.contains(e) <==> e.1 == 1 && added@.take(k as int).contains(e.0)
                    && !from@.contains(e.0),
    {
        let q = added[k];
        let ghost d0 = d@;
        assert(added@.take(k + 1) =~= added@.take(k as int).push(q));
        proof {
            lemma_push_contains(added@.take(k as int), q);
            lemma_fresh(added@, k as int);
        }
        if !from.contains(q) {
            assert(!d0.contains((q, 1i64)));
            d.push((q, 1));
            proof {
                lemma_push_contains(d0, (q, 1i64));
            }
        }
    }
    assert(added@.take(added@.len() as int) =~= added@);
    assert forall|q: (u64, u64, u64, u64)| #[trigger] added@.contains(q) <==> to@.contains(q) by {
        assert(added@.to_set().contains(q) <==> added@.contains(q));
    }
    let gone = from.members();
    assert(gone@.take(0) =~= Seq::empty());
    for k in 0..gone.len()
        invariant
            gone@.no_duplicates(),
            d@.no_duplicates(),
            forall|e: ((u64, u64, u64, u64), i64)| #[trigger]
                d@.contains(e) <==> (e.1 == 1 && to@.contains(e.0) && !from@.contains(e.0)) || (e.1
                    == -1 && gone@.take(k as int).contains(e.0) && !to@.contains(e.0)),
    {
        let q = gone[k];
        let ghost d0 = d@;
        assert(gone@.take(k + 1) =~= gone@.take(k as int).push(q));
        proof {
            lemma_push_contains(gone@.take(k as int), q);
            lemma_fresh(gone@, k as int);
        }
        if !to.contains(q) {
            assert(!d0.contains((q, -1i64)));
            d.push((q, -1));
            proof {
                lemma_push_contains(d0, (q, -1i64));
            }
        }
    }
    assert(gone@.take(gone@.len() as int) =~= gone@);
    assert forall|q: (u64, u64, u64, u64)| #[trigger] gone@.contains(q) <==> from@.contains(q) by {
        assert(gone@.to_set().contains(q) <==> gone@.contains(q));
    }
    d
}

proof fn lemma_fresh<A>(s: Seq<A>, k: int)
    requires
        s.no_duplicates(),
        0 <= k < s.len(),
    ensures
        !s.take(k).contains(s[k]),
{
    if s.take(k).contains(s[k]) {
        let q = choose|q: int| 0 <= q < s.take(k).len() && s.take(k)[q] == s[k];
        assert(s[q] == s[k]);
    }
}

// ---------------------------------------------------------------------------
// What the circuit gives back
// ---------------------------------------------------------------------------

/// The low half of an id of the circuit.
pub open spec fn low(x: u64) -> u32 {
    (x as int % 0x1_0000_0000) as u32
}

/// The low half of an id of the circuit.
fn low_half(x: u64) -> (r: u32)
    ensures
        r == low(x),
{
    (x % 0x1_0000_0000) as u32
}

/// The row of an index function for a leader.
pub open spec fn uff_row(e: (u64, u64)) -> Seq<u32> {
    seq![low(e.0), low(e.1)]
}

/// The row of a parent relation for an id that does not lead itself: the columns
/// beyond child and leader are zero.
pub open spec fn uf_row(e: (u64, u64), arity: nat) -> Seq<u32> {
    Seq::new(
        arity,
        |i: int|
            if i == 0 {
                low(e.0)
            } else if i == 1 {
                low(e.1)
            } else {
                0
            },
    )
}

/// The row of a view for a canonical row of the circuit.
pub open spec fn view_row(q: (u64, u64, u64, u64), arity: nat) -> Seq<u32> {
    if arity <= 1 {
        seq![low(q.3)]
    } else if arity == 2 {
        seq![low(q.1), low(q.3)]
    } else {
        seq![low(q.1), low(q.2), low(q.3)]
    }
}

/// The rows of an index function.
pub open spec fn uff_rows(leaders: Seq<(u64, u64)>) -> Set<Seq<u32>> {
    Set::new(
        |r: Seq<u32>|
            exists|i: int| 0 <= i < leaders.len() && r == uff_row(#[trigger] leaders[i]),
    )
}

/// The rows of a parent relation.
pub open spec fn uf_rows(leaders: Seq<(u64, u64)>, arity: nat) -> Set<Seq<u32>> {
    Set::new(
        |r: Seq<u32>|
            exists|i: int|
                0 <= i < leaders.len() && (#[trigger] leaders[i]).0 != leaders[i].1 && r == uf_row(
                    leaders[i],
                    arity,
                ),
    )
}

/// The rows of a view.
pub open spec fn canon_rows(canon: Seq<(u64, u64, u64, u64)>, tag: u64, arity: nat) -> Set<Seq<u32>> {
    Set::new(
        |r: Seq<u32>|
            exists|i: int|
                0 <= i < canon.len() && (#[trigger] canon[i]).0 == tag && r == view_row(
                    canon[i],
                    arity,
                ),
    )
}

/// The rows of table `f` after a rebuild. A table with several roles is rebuilt as a
/// view before a parent relation, and as that before an index function.
pub open spec fn rebuilt_rows(
    s: EgState,
    uf: Seq<FunctionId>,
    uff: Seq<FunctionId>,
    views: Seq<FunctionId>,
    tags: Seq<FunctionId>,
    leaders: Seq<(u64, u64)>,
    canon: Seq<(u64, u64, u64, u64)>,
    f: int,
) -> Set<Seq<u32>> {
    let id = FunctionId { rep: f as u32 };
    let arity = s.tables[f].info.arity;
    if views.contains(id) && arity > 0 {
        canon_rows(canon, tag_of(tags, id), arity)
    } else if uf.contains(id) {
        uf_rows(leaders, arity)
    } else if uff.contains(id) {
        uff_rows(leaders)
    } else {
        s.tables[f].rows
    }
}

/// The state after a rebuild.
pub open spec fn rebuilt(
    s: EgState,
    uf: Seq<FunctionId>,
    uff: Seq<FunctionId>,
    views: Seq<FunctionId>,
    tags: Seq<FunctionId>,
    leaders: Seq<(u64, u64)>,
    canon: Seq<(u64, u64, u64, u64)>,
) -> EgState {
    EgState {
        tables: Seq::new(
            s.tables.len(),
            |f: int|
                TableState {
                    rows: rebuilt_rows(s, uf, uff, views, tags, leaders, canon, f),
                    ..s.tables[f]
                },
        ),
        ..s
    }
}

/// Folding the same results in once more changes nothing: a rebuild that converged
/// ends a saturation.
pub proof fn rebuilt_is_settled(
    s: EgState,
    uf: Seq<FunctionId>,
    uff: Seq<FunctionId>,
    views: Seq<FunctionId>,
    tags: Seq<FunctionId>,
    leaders: Seq<(u64, u64)>,
    canon: Seq<(u64, u64, u64, u64)>,
)
    ensures
        ({
            let once = rebuilt(s, uf, uff, views, tags, leaders, canon);
            rebuilt(once, uf, uff, views, tags, leaders, canon) == once
        }),
{
    let once = rebuilt(s, uf, uff, views, tags, leaders, canon);
    let twice = rebuilt(once, uf, uff, views, tags, leaders, canon);
    assert forall|f: int| 0 <= f < s.tables.len() implies twice.tables[f] == once.tables[f] by {}
    assert(twice.tables =~= once.tables);
    assert(twice =~= once);
}

/// The tables without a role keep their rows.
pub proof fn rebuilt_keeps_other_tables(
    s: EgState,
    uf: Seq<FunctionId>,
    uff: Seq<FunctionId>,
    views: Seq<FunctionId>,
    tags: Seq<FunctionId>,
    leaders: Seq<(u64, u64)>,
    canon: Seq<(u64, u64, u64, u64)>,
    f: int,
)
    requires
        0 <= f < s.tables.len(),
        !views.contains(FunctionId { rep: f as u32 }),
        !uf.contains(FunctionId { rep: f as u32 }),
        !uff.contains(FunctionId { rep: f as u32 }),
    ensures
        rebuilt(s, uf, uff, views, tags, leaders, canon).tables[f] == s.tables[f],
{
}

fn make_uff_rows(leaders: &Vec<(u64, u64)>) -> (rows: Vec<Row>)
    ensures
        row_views(rows@).to_set() == uff_rows(leaders@),
        forall|i: int| 0 <= i < rows@.len() ==> (#[trigger] rows@[i])@.len() == 2,
{
    let mut rows: Vec<Row> = Vec::with_capacity(leaders.len());
    for i in 0..leaders.len()
        invariant
            rows@.len() == i,
            forall|k: int| 0 <= k < i ==> (#[trigger] rows@[k])@ == uff_row(leaders@[k]),
    {
        let (x, l) = leaders[i];
        let mut row: Vec<u32> = Vec::with_capacity(2);
        row.push(low_half(x));
        row.push(low_half(l));
        assert(row@ =~= uff_row(leaders@[i as int]));
        rows.push(row);
    }
    proof {
        let rv = row_views(rows@);
        assert forall|r: Seq<u32>| rv.to_set().contains(r) <==> uff_rows(leaders@).contains(r) by {
            if rv.contains(r) {
                let k = choose|k: int| 0 <= k < rv.len() && rv[k] == r;
                assert(rows@[k]@ == uff_row(leaders@[k]));
            }
            if uff_rows(leaders@).contains(r) {
                let k = choose|k: int|
                    0 <= k < leaders@.len() && r == uff_row(#[trigger] leaders@[k]);
                assert(rows@[k]@ == uff_row(leaders@[k]));
                assert(rv[k] == r);
            }
        }
        assert(rv.to_set() =~= uff_rows(leaders@));
    }
    rows
}

fn make_uf_rows(leaders: &Vec<(u64, u64)>, arity: usize) -> (rows: Vec<Row>)
    requires
        arity >= 2,
    ensures
        row_views(rows@).to_set() == uf_rows(leaders@, arity as nat),
        forall|i: int| 0 <= i < rows@.len() ==> (#[trigger] rows@[i])@.len() == arity,
{
    let mut rows: Vec<Row> = Vec::new();
    assert(row_views(rows@).to_set() =~= uf_rows(leaders@.take(0), arity as nat));
    for i in 0..leaders.len()
        invariant
            arity >= 2,
            forall|k: int| 0 <= k < rows@.len() ==> (#[trigger] rows@[k])@.len() == arity,
            row_views(rows@).to_set() == uf_rows(leaders@.take(i as int), arity as nat),
    {
        let ghost less = leaders@.take(i as int);
        let ghost upto = leaders@.take(i + 1);
        let ghost rows0 = rows@;
        assert(upto =~= less.push(leaders@[i as int]));
        let (x, l) = leaders[i];
        if x != l {
            let mut row: Vec<u32> = Vec::with_capacity(arity);
            row.push(low_half(x));
            row.push(low_half(l));
            while row.len() < arity
                invariant
                    2 <= row@.len() <= arity,
                    row@[0] == low(x),
                    row@[1] == low(l),
                    forall|k: int| 2 <= k < row@.len() ==> row@[k] == 0,
                decreases arity - row@.len(),
            {
                row.push(0);
            }
            assert(row@ =~= uf_row(leaders@[i as int], arity as nat));
            rows.push(row);
            proof {
                assert(row_views(rows@) =~= row_views(rows0).push(row@));
                lemma_push_contains(row_views(rows0), row@);
            }
        }
        proof {
            lemma_uf_rows_step(leaders@, arity as nat, i as int);
            assert(row_views(rows@).to_set() =~= uf_rows(upto, arity as nat));
        }
    }
    assert(leaders@.take(leaders@.len() as int) =~= leaders@);
    rows
}

proof fn lemma_uf_rows_step(leaders: Seq<(u64, u64)>, arity: nat, i: int)
    requires
        0 <= i < leaders.len(),
    ensures
        uf_rows(leaders.take(i + 1), arity) == (if leaders[i].0 != leaders[i].1 {
            uf_rows(leaders.take(i), arity).insert(uf_row(leaders[i], arity))
        } else {
            uf_rows(leaders.take(i), arity)
        }),
{
    let a = leaders.take(i);
    let b = leaders.take(i + 1);
    assert(b[i] == leaders[i]);
    assert forall|r: Seq<u32>| uf_rows(b, arity).contains(r) <==> uf_rows(a, arity).contains(r) || (
    leaders[i].0 != leaders[i].1 && r == uf_row(leaders[i], arity)) by {
        if uf_rows(a, arity).contains(r) {
            let k = choose|k: int|
                0 <= k < a.len() && (#[trigger] a[k]).0 != a[k].1 && r == uf_row(a[k], arity);
            assert(b[k] == a[k]);
        }
        if uf_rows(b, arity).contains(r) {
            let k = choose|k: int|
                0 <= k < b.len() && (#[trigger] b[k]).0 != b[k].1 && r == uf_row(b[k], arity);
            if k < i {
                assert(a[k] == b[k]);
            }
        }
    }
    assert(uf_rows(b, arity) =~= (if leaders[i].0 != leaders[i].1 {
        uf_rows(a, arity).insert(uf_row(leaders[i], arity))
    } else {
        uf_rows(a, arity)
    }));
}

fn make_view_rows(canon: &Vec<(u64, u64, u64, u64)>, tag: u64, arity: usize) -> (rows: Vec<Row>)
    requires
        0 < arity <= 3,
    ensures
        row_views(rows@).to_set() == canon_rows(canon@, tag, arity as nat),
        forall|i: int| 0 <= i < rows@.len() ==> (#[trigger] rows@[i])@.len() == arity,
{
    let mut rows: Vec<Row> = Vec::new();
    assert(row_views(rows@).to_set() =~= canon_rows(canon@.take(0), tag, arity as nat));
    for i in 0..canon.len()
        invariant
            0 < arity <= 3,
            forall|k: int| 0 <= k < rows@.len() ==> (#[trigger] rows@[k])@.len() == arity,
            row_views(rows@).to_set() == canon_rows(canon@.take(i as int), tag, arity as nat),
    {
        let ghost upto = canon@.take(i + 1);
        let ghost rows0 = rows@;
        let (t, c0, c1, out) = canon[i];
        if t == tag {
            let mut row: Vec<u32> = Vec::with_capacity(arity);
            if arity >= 2 {
                row.push(low_half(c0));
            }
            if arity >= 3 {
                row.push(low_half(c1));
            }
            row.push(low_half(out));
            assert(row@ =~= view_row(canon@[i as int], arity as nat));
            rows.push(row);
            proof {
                assert(row_views(rows@) =~= row_views(rows0).push(row@));
                lemma_push_contains(row_views(rows0), row@);
            }
        }
        proof {
            lemma_canon_rows_step(canon@, tag, arity as nat, i as int);
            assert(row_views(rows@).to_set() =~= canon_rows(upto, tag, arity as nat));
        }
    }
    assert(canon@.take(canon@.len() as int) =~= canon@);
    rows
}

proof fn lemma_canon_rows_step(canon: Seq<(u64, u64, u64, u64)>, tag: u64, arity: nat, i: int)
    requires
        0 <= i < canon.len(),
    ensures
        canon_rows(canon.take(i + 1), tag, arity) == (if canon[i].0 == tag {
            canon_rows(canon.take(i), tag, arity).insert(view_row(canon[i], arity))
        } else {
            canon_rows(canon.take(i), tag, arity)
        }),
{
    let a = canon.take(i);
    let b = canon.take(i + 1);
    assert(b[i] == canon[i]);
    assert forall|r: Seq<u32>| canon_rows(b, tag, arity).contains(r) <==> canon_rows(
        a,
        tag,
        arity,
    ).contains(r) || (canon[i].0 == tag && r == view_row(canon[i], arity)) by {
        if canon_rows(a, tag, arity).contains(r) {
            let k = choose|k: int|
                0 <= k < a.len() && (#[trigger] a[k]).0 == tag && r == view_row(a[k], arity);
            assert(b[k] == a[k]);
        }
        if canon_rows(b, tag, arity).contains(r) {
            let k = choose|k: int|
                0 <= k < b.len() && (#[trigger] b[k]).0 == tag && r == view_row(b[k], arity);
            if k < i {
                assert(a[k] == b[k]);
            }
        }
    }
    assert(canon_rows(b, tag, arity) =~= (if canon[i].0 == tag {
        canon_rows(a, tag, arity).insert(view_row(canon[i], arity))
    } else {
        canon_rows(a, tag, arity)
    }));
}

/// A state whose first `n` tables were rebuilt.
spec fn rebuilt_upto(s: EgState, t: EgState, n: int) -> EgState {
    EgState {
        tables: Seq::new(
            s.tables.len(),
            |f: int|
                if f < n {
                    t.tables[f]
                } else {
                    s.tables[f]
                },
        ),
        ..s
    }
}

impl RebuildCache {
    /// Folds the leaders and canonical view rows that the circuit gave into the
    /// tables, and says whether a table changed.
    pub fn fold_results(
        &self,
        eg: &mut EGraph,
        roles: &RebuildRoles,
        leaders: &Vec<(u64, u64)>,
        canon: &Vec<(u64, u64, u64, u64)>,
    ) -> (changed: bool)
        requires
            self.wf(),
            old(eg).wf(),
            roles_fit(old(eg)@, roles),
            forall|f: FunctionId| #[trigger]
                roles.views@.contains(f) ==> self.tags().contains(f),
        ensures
            final(eg).wf(),
            final(eg).runs() == old(eg).runs(),
            final(eg)@ == rebuilt(
                old(eg)@,
                roles.uf@,
                roles.uff@,
                roles.views@,
                self.tags(),
                leaders@,
                canon@,
            ),
            changed <==> exists|f: int|
                0 <= f < old(eg)@.tables.len() && (#[trigger] final(eg)@.tables[f]).rows != old(
                    eg,
                )@.tables[f].rows,
    {
        let ghost s0 = eg@;
        let ghost t = rebuilt(
            s0,
            roles.uf@,
            roles.uff@,
            roles.views@,
            self.tags(),
            leaders@,
            canon@,
        );
        let n: usize = eg.table_count();
        let mut changed = false;
        proof {
            eg.lemma_wf();
            assert(rebuilt_upto(s0, t, 0) =~= s0);
        }
        for i in 0..n
            invariant
                s0 == old(eg)@,
                n == s0.tables.len(),
                n <= u32::MAX + 1,
                self.wf(),
                roles_fit(s0, roles),
                t == rebuilt(
                    s0,
                    roles.uf@,
                    roles.uff@,
                    roles.views@,
                    self.tags(),
                    leaders@,
                    canon@,
                ),
                forall|f: FunctionId| #[trigger]
                    roles.views@.contains(f) ==> self.tags().contains(f),
                eg.wf(),
                eg.runs() == old(eg).runs(),
                eg@ == rebuilt_upto(s0, t, i as int),
                changed <==> exists|f: int|
                    0 <= f < i && (#[trigger] t.tables[f]).rows != s0.tables[f].rows,
        {
            let f = FunctionId::new(i as u32);
            let ghost before = changed;
            let ghost s1 = eg@;
            assert(f == FunctionId { rep: i as u32 });
            let arity: usize = eg.info(f).arity;
            assert(s1.tables[i as int] == s0.tables[i as int]);
            let in_views = contains_func(&roles.views, f);
            let in_uf = contains_func(&roles.uf, f);
            let in_uff = contains_func(&roles.uff, f);
            proof {
                if in_views {
                    let k = choose|k: int| 0 <= k < roles.views@.len() && roles.views@[k] == f;
                    assert(s0.tables[roles.views@[k].rep as int].info.arity <= 3);
                }
                if in_uf {
                    let k = choose|k: int| 0 <= k < roles.uf@.len() && roles.uf@[k] == f;
                    assert(s0.tables[roles.uf@[k].rep as int].info.arity >= 2);
                }
                if in_uff {
                    let k = choose|k: int| 0 <= k < roles.uff@.len() && roles.uff@[k] == f;
                    assert(s0.tables[roles.uff@[k].rep as int].info.arity == 2);
                }
            }
            if in_views && arity > 0 {
                let tag: u64 = self.tag(f);
                let rows = make_view_rows(canon, tag, arity);
                if eg.set_rows(i, &rows) {
                    changed = true;
                }
            } else if in_uf {
                let rows = make_uf_rows(leaders, arity);
                if eg.set_rows(i, &rows) {
                    changed = true;
                }
            } else if in_uff {
                let rows = make_uff_rows(leaders);
                if eg.set_rows(i, &rows) {
                    changed = true;
                }
            }
            proof {
                assert(eg@.tables[i as int] == t.tables[i as int]);
                assert(eg@.tables =~= rebuilt_upto(s0, t, i + 1).tables);
                assert(eg@ =~= rebuilt_upto(s0, t, i + 1));
                if before {
                    let g = choose|g: int|
                        0 <= g < i && (#[trigger] t.tables[g]).rows != s0.tables[g].rows;
                    assert(t.tables[g].rows != s0.tables[g].rows);
                }
            }
        }
        proof {
            assert(rebuilt_upto(s0, t, n as int).tables =~= t.tables);
            assert(eg@ =~= t);
        }
        changed
    }
}

} // verus!
