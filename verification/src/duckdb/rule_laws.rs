//! What the native form of a rule means.
use crate::duckdb::names::family;
use crate::duckdb::rules::{
    all_with_finds, change_only, kept, native_form, without_changes, ActionView, AtomView, LitView,
    RuleView, TermView,
};
use vstd::prelude::*;
use vstd::string::*;

verus! {

/// What the names in terms stand for: the literals, the operations and the functions.
pub struct Model {
    pub lit: spec_fn(LitView) -> int,
    pub prim: spec_fn(Seq<char>, Seq<int>) -> int,
    pub func: spec_fn(Seq<char>, Seq<int>, bool) -> int,
}

/// The value of a term, given those of its variables.
pub open spec fn value(t: TermView, m: Model, env: spec_fn(Seq<char>) -> int) -> int
    decreases t,
{
    match t {
        TermView::Var(v) => env(v),
        TermView::Lit(l) => (m.lit)(l),
        TermView::Prim(op, args) => (m.prim)(op, values(args, m, env)),
        TermView::FuncCall(name, args, identity) => (m.func)(name, values(args, m, env), identity),
    }
}

/// The values of terms.
pub open spec fn values(ts: Seq<TermView>, m: Model, env: spec_fn(Seq<char>) -> int) -> Seq<int>
    decreases ts,
{
    if ts.len() == 0 {
        Seq::empty()
    } else {
        values(ts.drop_last(), m, env).push(value(ts[ts.len() - 1], m, env))
    }
}

proof fn lemma_same_values(
    a: Seq<TermView>,
    ma: Model,
    ea: spec_fn(Seq<char>) -> int,
    b: Seq<TermView>,
    mb: Model,
    eb: spec_fn(Seq<char>) -> int,
)
    requires
        a.len() == b.len(),
        forall|i: int| 0 <= i < a.len() ==> value(#[trigger] a[i], ma, ea) == value(b[i], mb, eb),
    ensures
        values(a, ma, ea) == values(b, mb, eb),
    decreases a.len(),
{
    if a.len() > 0 {
        let la = a.drop_last();
        let lb = b.drop_last();
        assert forall|i: int| 0 <= i < la.len() implies value(#[trigger] la[i], ma, ea) == value(
            lb[i],
            mb,
            eb,
        ) by {
            assert(la[i] == a[i] && lb[i] == b[i]);
        }
        lemma_same_values(la, ma, ea, lb, mb, eb);
        assert(value(a[a.len() - 1], ma, ea) == value(b[b.len() - 1], mb, eb));
    }
}

/// Whether the find functions give in one model what the operations that they stand for give in the
/// other, and all other operations the same.
pub open spec fn stands_in(canon: Map<Seq<char>, Seq<char>>, m: Model, m2: Model) -> bool {
    &&& m2.lit == m.lit
    &&& m2.func == m.func
    &&& forall|op: Seq<char>, vals: Seq<int>| #[trigger]
        (m.prim)(op, vals) == if canon.contains_key(op) {
            (m2.prim)("__duck_uf_find:"@ + canon[op], vals)
        } else {
            (m2.prim)(op, vals)
        }
}

/// A term with find functions in place of the canonicalizing operations has the same value, wherever
/// the operations stand in it.
pub proof fn finds_mean_what_they_replace(
    t: TermView,
    canon: Map<Seq<char>, Seq<char>>,
    m: Model,
    m2: Model,
    env: spec_fn(Seq<char>) -> int,
)
    requires
        stands_in(canon, m, m2),
    ensures
        value(t.with_finds(canon), m2, env) == value(t, m, env),
    decreases t,
{
    let t2 = t.with_finds(canon);
    match t {
        TermView::Prim(op, args) => {
            let args2 = t2->Prim_1;
            assert forall|i: int| 0 <= i < args.len() implies value(#[trigger] args2[i], m2, env) == value(
                args[i],
                m,
                env,
            ) by {
                finds_mean_what_they_replace(args[i], canon, m, m2, env);
            }
            lemma_same_values(args2, m2, env, args, m, env);
            let vals = values(args, m, env);
            assert((m.prim)(op, vals) == if canon.contains_key(op) {
                (m2.prim)("__duck_uf_find:"@ + canon[op], vals)
            } else {
                (m2.prim)(op, vals)
            });
        },
        TermView::FuncCall(name, args, id) => {
            let args2 = t2->FuncCall_1;
            assert forall|i: int| 0 <= i < args.len() implies value(#[trigger] args2[i], m2, env) == value(
                args[i],
                m,
                env,
            ) by {
                finds_mean_what_they_replace(args[i], canon, m, m2, env);
            }
            lemma_same_values(args2, m2, env, args, m, env);
        },
        _ => {},
    }
}

/// A term's value does not hang on the variables that it does not mention.
pub proof fn unmentioned_variables_make_no_difference(
    t: TermView,
    vars: Set<Seq<char>>,
    m: Model,
    env: spec_fn(Seq<char>) -> int,
    env2: spec_fn(Seq<char>) -> int,
)
    requires
        !t.mentions(vars),
        forall|v: Seq<char>| !vars.contains(v) ==> #[trigger] env(v) == env2(v),
    ensures
        value(t, m, env) == value(t, m, env2),
    decreases t,
{
    match t {
        TermView::Var(v) => {
            assert(env(v) == env2(v));
        },
        TermView::Prim(op, args) => {
            assert forall|i: int| 0 <= i < args.len() implies value(#[trigger] args[i], m, env) == value(
                args[i],
                m,
                env2,
            ) by {
                assert(!args[i].mentions(vars));
                unmentioned_variables_make_no_difference(args[i], vars, m, env, env2);
            }
            lemma_same_values(args, m, env, args, m, env2);
        },
        TermView::FuncCall(name, args, id) => {
            assert forall|i: int| 0 <= i < args.len() implies value(#[trigger] args[i], m, env) == value(
                args[i],
                m,
                env2,
            ) by {
                assert(!args[i].mentions(vars));
                unmentioned_variables_make_no_difference(args[i], vars, m, env, env2);
            }
            lemma_same_values(args, m, env, args, m, env2);
        },
        _ => {},
    }
}

/// A term's value does not hang on a union-find whose find function it does not call.
pub proof fn uncalled_finds_make_no_difference(
    t: TermView,
    udf: Seq<char>,
    m: Model,
    m2: Model,
    env: spec_fn(Seq<char>) -> int,
)
    requires
        !t.finds(udf),
        m2.lit == m.lit,
        m2.func == m.func,
        forall|op: Seq<char>, vals: Seq<int>|
            op != "__duck_uf_find:"@ + udf ==> #[trigger] (m.prim)(op, vals) == (m2.prim)(op, vals),
    ensures
        value(t, m, env) == value(t, m2, env),
    decreases t,
{
    match t {
        TermView::Prim(op, args) => {
            assert forall|i: int| 0 <= i < args.len() implies value(#[trigger] args[i], m, env) == value(
                args[i],
                m2,
                env,
            ) by {
                assert(!args[i].finds(udf));
                uncalled_finds_make_no_difference(args[i], udf, m, m2, env);
            }
            lemma_same_values(args, m, env, args, m2, env);
            assert((m.prim)(op, values(args, m, env)) == (m2.prim)(op, values(args, m, env)));
        },
        TermView::FuncCall(name, args, id) => {
            assert forall|i: int| 0 <= i < args.len() implies value(#[trigger] args[i], m, env) == value(
                args[i],
                m2,
                env,
            ) by {
                assert(!args[i].finds(udf));
                uncalled_finds_make_no_difference(args[i], udf, m, m2, env);
            }
            lemma_same_values(args, m, env, args, m2, env);
        },
        _ => {},
    }
}

/// The terms of an atom.
pub open spec fn atom_terms(a: AtomView) -> Seq<TermView> {
    match a {
        AtomView::Func(name, args) => args,
        AtomView::Filter(t) => seq![t],
        AtomView::Bind(v, t) => seq![t],
    }
}

/// The terms of an action.
pub open spec fn action_terms(a: ActionView) -> Seq<TermView> {
    match a {
        ActionView::Insert(name, args) => args,
        ActionView::Delete(name, args) => args,
        ActionView::LetCtor(v, name, args) => args,
        ActionView::LetExpr(v, t) => seq![t],
        ActionView::Panic(msg) => Seq::empty(),
    }
}

/// Whether two atoms differ in nothing but their terms.
pub open spec fn alike(a: AtomView, b: AtomView) -> bool {
    match (a, b) {
        (AtomView::Func(n, _), AtomView::Func(n2, _)) => n == n2,
        (AtomView::Filter(_), AtomView::Filter(_)) => true,
        (AtomView::Bind(v, _), AtomView::Bind(v2, _)) => v == v2,
        _ => false,
    }
}

/// Whether two actions differ in nothing but their terms.
pub open spec fn acts_alike(a: ActionView, b: ActionView) -> bool {
    match (a, b) {
        (ActionView::Insert(n, _), ActionView::Insert(n2, _)) => n == n2,
        (ActionView::Delete(n, _), ActionView::Delete(n2, _)) => n == n2,
        (ActionView::LetCtor(v, n, _), ActionView::LetCtor(v2, n2, _)) => v == v2 && n == n2,
        (ActionView::LetExpr(v, _), ActionView::LetExpr(v2, _)) => v == v2,
        (ActionView::Panic(t), ActionView::Panic(t2)) => t == t2,
        _ => false,
    }
}

proof fn lemma_all_values(
    ts: Seq<TermView>,
    canon: Map<Seq<char>, Seq<char>>,
    m: Model,
    m2: Model,
    env: spec_fn(Seq<char>) -> int,
)
    requires
        stands_in(canon, m, m2),
    ensures
        values(all_with_finds(ts, canon), m2, env) == values(ts, m, env),
{
    assert forall|i: int| 0 <= i < ts.len() implies value(
        #[trigger] all_with_finds(ts, canon)[i],
        m2,
        env,
    ) == value(ts[i], m, env) by {
        finds_mean_what_they_replace(ts[i], canon, m, m2, env);
    }
    lemma_same_values(all_with_finds(ts, canon), m2, env, ts, m, env);
}

/// The native form of a rule does the same under find functions as the rule under the operations that
/// they stand for: all atoms and actions are there in their order, with the same values; a rebuild rule
/// loses just the atoms of the change relations, and the filters and bindings that hang on a variable
/// which only those bind.
pub proof fn native_forms_do_the_same(
    r: RuleView,
    changes: Set<Seq<char>>,
    canon: Map<Seq<char>, Seq<char>>,
    m: Model,
    m2: Model,
    env: spec_fn(Seq<char>) -> int,
)
    requires
        stands_in(canon, m, m2),
    ensures
        ({
            let n = native_form(r, changes, canon);
            let body = if family(r.name) == "rebuild_rule"@ {
                r.body.filter(|a: AtomView| stays_without(r.body, changes, a))
            } else {
                r.body
            };
            &&& n.name == r.name && n.ruleset == r.ruleset
            &&& n.body.len() == body.len()
            &&& forall|i: int|
                0 <= i < body.len() ==> alike(#[trigger] n.body[i], body[i]) && values(
                    atom_terms(n.body[i]),
                    m2,
                    env,
                ) == values(atom_terms(body[i]), m, env)
            &&& n.actions.len() == r.actions.len()
            &&& forall|i: int|
                0 <= i < r.actions.len() ==> acts_alike(#[trigger] n.actions[i], r.actions[i])
                    && values(action_terms(n.actions[i]), m2, env) == values(
                    action_terms(r.actions[i]),
                    m,
                    env,
                )
        }),
{
    let n = native_form(r, changes, canon);
    let body = if family(r.name) == "rebuild_rule"@ {
        without_changes(r.body, changes)
    } else {
        r.body
    };
    if family(r.name) == "rebuild_rule"@ {
        lemma_kept(r.body, r.body, changes);
    }
    assert forall|i: int| 0 <= i < body.len() implies alike(#[trigger] n.body[i], body[i]) && values(
        atom_terms(n.body[i]),
        m2,
        env,
    ) == values(atom_terms(body[i]), m, env) by {
        lemma_all_values(atom_terms(body[i]), canon, m, m2, env);
        assert(n.body[i] == body[i].with_finds(canon));
        assert(atom_terms(n.body[i]) =~= all_with_finds(atom_terms(body[i]), canon));
    }
    assert forall|i: int| 0 <= i < r.actions.len() implies acts_alike(
        #[trigger] n.actions[i],
        r.actions[i],
    ) && values(action_terms(n.actions[i]), m2, env) == values(action_terms(r.actions[i]), m, env) by {
        lemma_all_values(action_terms(r.actions[i]), canon, m, m2, env);
        assert(n.actions[i] == r.actions[i].with_finds(canon));
        assert(action_terms(n.actions[i]) =~= all_with_finds(action_terms(r.actions[i]), canon));
    }
}

/// Whether only atoms of the change relations have a variable among their columns.
pub open spec fn hangs_on_changes(body: Seq<AtomView>, changes: Set<Seq<char>>, v: Seq<char>) -> bool {
    &&& exists|i: int|
        0 <= i < body.len() && ((#[trigger] body[i]) matches AtomView::Func(name, args)
            && changes.contains(name) && args.contains(TermView::Var(v)))
    &&& forall|i: int|
        0 <= i < body.len() ==> ((#[trigger] body[i]) matches AtomView::Func(name, args) ==> (
        args.contains(TermView::Var(v)) ==> changes.contains(name)))
}

/// The variables that only atoms of the change relations have.
pub open spec fn hanging(body: Seq<AtomView>, changes: Set<Seq<char>>) -> Set<Seq<char>> {
    Set::new(|v: Seq<char>| hangs_on_changes(body, changes, v))
}

/// Whether an atom stays when the atoms of the change relations go.
pub open spec fn stays_without(body: Seq<AtomView>, changes: Set<Seq<char>>, a: AtomView) -> bool {
    match a {
        AtomView::Func(name, args) => !changes.contains(name),
        AtomView::Filter(t) => !t.mentions(hanging(body, changes)),
        AtomView::Bind(v, t) => !hangs_on_changes(body, changes, v) && !t.mentions(
            hanging(body, changes),
        ),
    }
}

proof fn lemma_hanging(body: Seq<AtomView>, changes: Set<Seq<char>>)
    ensures
        change_only(body, changes) == hanging(body, changes),
{
    assert forall|v: Seq<char>| change_only(body, changes).contains(v) <==> hanging(
        body,
        changes,
    ).contains(v) by {
        if change_only(body, changes).contains(v) {
            let i = choose|i: int| 0 <= i < body.len() && (#[trigger] body[i]).binds(changes, true, v);
            assert(body[i] matches AtomView::Func(name, args) && changes.contains(name)
                && args.contains(TermView::Var(v)));
            assert forall|i: int| 0 <= i < body.len() implies ((#[trigger] body[i]) matches AtomView::Func(
                name,
                args,
            ) ==> (args.contains(TermView::Var(v)) ==> changes.contains(name))) by {
                assert(!body[i].binds(changes, false, v));
            }
        }
        if hanging(body, changes).contains(v) {
            let i = choose|i: int|
                0 <= i < body.len() && ((#[trigger] body[i]) matches AtomView::Func(name, args)
                    && changes.contains(name) && args.contains(TermView::Var(v)));
            assert(body[i].binds(changes, true, v));
        }
    }
    assert(change_only(body, changes) =~= hanging(body, changes));
}

proof fn lemma_kept(body: Seq<AtomView>, part: Seq<AtomView>, changes: Set<Seq<char>>)
    ensures
        kept(part, changes, change_only(body, changes)) == part.filter(
            |a: AtomView| stays_without(body, changes, a),
        ),
    decreases part.len(),
{
    reveal(Seq::filter);
    lemma_hanging(body, changes);
    if part.len() > 0 {
        lemma_kept(body, part.drop_last(), changes);
        let gone = change_only(body, changes);
        assert(part.last().stays(changes, gone) == stays_without(body, changes, part.last()));
    }
}

} // verus!
