//! Rules: terms, body atoms and actions.
use crate::duckdb::strmap::{add_name, holds_name, name_set, with_name, StrMap};
use crate::duckdb::names::{family, is_rebuild_rule_name};
use crate::text::texts;
use vstd::prelude::*;
use vstd::string::*;

verus! {

/// A literal value. A float is held by its bits, so two of them are equal where the bits are.
#[derive(Clone, Debug, PartialEq, Eq, Hash)]
pub enum Literal {
    I64(i64),
    Bool(bool),
    F64(u64),
    Str(String),
}

/// A term of a rule's body or action.
#[derive(Debug, PartialEq, Eq, Hash)]
pub enum Term {
    /// A variable.
    Var(String),
    /// A literal.
    Lit(Literal),
    /// A primitive applied to arguments.
    Prim(String, Vec<Term>),
    /// The output of a function for the given inputs; with `identity_on_miss`, a missing key
    /// reads as the key itself.
    FuncCall { name: String, args: Vec<Term>, identity_on_miss: bool },
}

impl Term {
    /// A variable.
    pub fn var(name: String) -> (t: Term)
        ensures
            t == Term::Var(name),
    {
        Term::Var(name)
    }

    /// An integer literal.
    pub fn i64(v: i64) -> (t: Term)
        ensures
            t == Term::Lit(Literal::I64(v)),
    {
        Term::Lit(Literal::I64(v))
    }

    /// A primitive applied to arguments.
    pub fn prim(op: String, args: Vec<Term>) -> (t: Term)
        ensures
            t == Term::Prim(op, args),
    {
        Term::Prim(op, args)
    }

    /// The integer, where the term is an integer literal.
    pub open spec fn lit(self) -> Option<i64> {
        match self {
            Term::Lit(Literal::I64(v)) => Some(v),
            _ => None,
        }
    }

    /// The integer, where the term is an integer literal.
    pub fn as_i64(&self) -> (r: Option<i64>)
        ensures
            r == self.lit(),
    {
        match self {
            Term::Lit(Literal::I64(v)) => Some(*v),
            _ => None,
        }
    }
}

/// What a literal holds.
pub enum LitView {
    I64(i64),
    Bool(bool),
    F64(u64),
    Str(Seq<char>),
}

/// What a term holds.
pub enum TermView {
    Var(Seq<char>),
    Lit(LitView),
    Prim(Seq<char>, Seq<TermView>),
    FuncCall(Seq<char>, Seq<TermView>, bool),
}

impl View for Literal {
    type V = LitView;

    open spec fn view(&self) -> LitView {
        match *self {
            Literal::I64(v) => LitView::I64(v),
            Literal::Bool(v) => LitView::Bool(v),
            Literal::F64(v) => LitView::F64(v),
            Literal::Str(v) => LitView::Str(v@),
        }
    }
}

impl Literal {
    /// Whether the two are the same literal.
    pub fn same(&self, other: &Literal) -> (b: bool)
        ensures
            b == (self@ == other@),
    {
        match (self, other) {
            (Literal::I64(a), Literal::I64(b)) => *a == *b,
            (Literal::Bool(a), Literal::Bool(b)) => *a == *b,
            (Literal::F64(a), Literal::F64(b)) => *a == *b,
            (Literal::Str(a), Literal::Str(b)) => *a == *b,
            _ => false,
        }
    }
}

/// What a term holds.
pub open spec fn term_view(t: Term) -> TermView
    decreases t,
{
    match t {
        Term::Var(v) => TermView::Var(v@),
        Term::Lit(l) => TermView::Lit(l@),
        Term::Prim(op, args) => TermView::Prim(
            op@,
            Seq::new(
                args@.len(),
                |i: int|
                    if 0 <= i < args@.len() {
                        term_view(args@[i])
                    } else {
                        arbitrary()
                    },
            ),
        ),
        Term::FuncCall { name, args, identity_on_miss } => TermView::FuncCall(
            name@,
            Seq::new(
                args@.len(),
                |i: int|
                    if 0 <= i < args@.len() {
                        term_view(args@[i])
                    } else {
                        arbitrary()
                    },
            ),
            identity_on_miss,
        ),
    }
}

impl View for Term {
    type V = TermView;

    open spec fn view(&self) -> TermView {
        term_view(*self)
    }
}

/// What terms hold.
pub open spec fn term_views(args: Seq<Term>) -> Seq<TermView> {
    args.map_values(|t: Term| t@)
}

/// The prefix of the operation that stands for a call of a union-find's find function; the rest of
/// the operation's name is the function's.
pub open spec fn find_prefix() -> Seq<char> {
    "__duck_uf_find:"@
}

impl TermView {
    /// The term with each operation that has a find function replaced by a call of that function.
    pub open spec fn with_finds(self, canon: Map<Seq<char>, Seq<char>>) -> TermView
        decreases self,
    {
        match self {
            TermView::Var(v) => self,
            TermView::Lit(l) => self,
            TermView::Prim(op, args) => TermView::Prim(
                if canon.contains_key(op) {
                    find_prefix() + canon[op]
                } else {
                    op
                },
                Seq::new(
                    args.len(),
                    |i: int|
                        if 0 <= i < args.len() {
                            args[i].with_finds(canon)
                        } else {
                            arbitrary()
                        },
                ),
            ),
            TermView::FuncCall(name, args, identity) => TermView::FuncCall(
                name,
                Seq::new(
                    args.len(),
                    |i: int|
                        if 0 <= i < args.len() {
                            args[i].with_finds(canon)
                        } else {
                            arbitrary()
                        },
                ),
                identity,
            ),
        }
    }

    /// Whether some variable of the set stands in the term.
    pub open spec fn mentions(self, vars: Set<Seq<char>>) -> bool
        decreases self,
    {
        match self {
            TermView::Var(v) => vars.contains(v),
            TermView::Lit(l) => false,
            TermView::Prim(op, args) => exists|i: int|
                0 <= i < args.len() && (#[trigger] args[i]).mentions(vars),
            TermView::FuncCall(name, args, identity) => exists|i: int|
                0 <= i < args.len() && (#[trigger] args[i]).mentions(vars),
        }
    }

    /// Whether the term calls the find function `udf`.
    pub open spec fn finds(self, udf: Seq<char>) -> bool
        decreases self,
    {
        match self {
            TermView::Var(v) => false,
            TermView::Lit(l) => false,
            TermView::Prim(op, args) => op == find_prefix() + udf || exists|i: int|
                0 <= i < args.len() && (#[trigger] args[i]).finds(udf),
            TermView::FuncCall(name, args, identity) => exists|i: int|
                0 <= i < args.len() && (#[trigger] args[i]).finds(udf),
        }
    }
}

/// The terms with each operation that has a find function replaced.
pub open spec fn all_with_finds(args: Seq<TermView>, canon: Map<Seq<char>, Seq<char>>) -> Seq<
    TermView,
> {
    args.map_values(|t: TermView| t.with_finds(canon))
}

/// What a map of names to names holds.
pub open spec fn name_map(m: Map<Seq<char>, String>) -> Map<Seq<char>, Seq<char>> {
    Map::new(|k: Seq<char>| m.contains_key(k), |k: Seq<char>| m[k]@)
}

/// The operation's name, replaced where it has a find function.
fn rewrite_op(op: &String, canon: &StrMap<String>) -> (r: String)
    requires
        canon.wf(),
    ensures
        r@ == if canon@.contains_key(op@) {
            find_prefix() + canon@[op@]@
        } else {
            op@
        },
{
    match canon.get(op.as_str()) {
        Some(udf) => {
            let mut r = "__duck_uf_find:".to_owned();
            r.append(udf.as_str());
            r
        },
        None => op.clone(),
    }
}

/// The term with each operation that has a find function replaced by a call of that function.
pub fn rewrite_canon_in_term(t: &Term, canon: &StrMap<String>) -> (r: Term)
    requires
        canon.wf(),
    ensures
        r@ == t@.with_finds(name_map(canon@)),
    decreases t,
{
    match t {
        Term::Var(v) => Term::Var(v.clone()),
        Term::Lit(l) => Term::Lit(clone_literal(l)),
        Term::Prim(op, args) => {
            let mut out: Vec<Term> = Vec::new();
            let n: usize = args.len();
            for i in 0..n
                invariant
                    n == args@.len(),
                    canon.wf(),
                    t is Prim,
                    *args == t->Prim_1,
                    out@.len() == i,
                    forall|k: int|
                        0 <= k < i ==> (#[trigger] out@[k])@ == args@[k]@.with_finds(
                            name_map(canon@),
                        ),
            {
                assert(decreases_to!(*t => args@[i as int]));
                out.push(rewrite_canon_in_term(&args[i], canon));
            }
            let r = Term::Prim(rewrite_op(op, canon), out);
            assert(r@->Prim_1 =~= t@.with_finds(name_map(canon@))->Prim_1);
            r
        },
        Term::FuncCall { name, args, identity_on_miss } => {
            let mut out: Vec<Term> = Vec::new();
            let n: usize = args.len();
            for i in 0..n
                invariant
                    n == args@.len(),
                    canon.wf(),
                    t is FuncCall,
                    *args == t->args,
                    out@.len() == i,
                    forall|k: int|
                        0 <= k < i ==> (#[trigger] out@[k])@ == args@[k]@.with_finds(
                            name_map(canon@),
                        ),
            {
                assert(decreases_to!(*t => args@[i as int]));
                out.push(rewrite_canon_in_term(&args[i], canon));
            }
            let r = Term::FuncCall {
                name: name.clone(),
                args: out,
                identity_on_miss: *identity_on_miss,
            };
            assert(r@->FuncCall_1 =~= t@.with_finds(name_map(canon@))->FuncCall_1);
            r
        },
    }
}

/// The same literal again.
fn clone_literal(l: &Literal) -> (r: Literal)
    ensures
        r == *l,
{
    match l {
        Literal::I64(v) => Literal::I64(*v),
        Literal::Bool(v) => Literal::Bool(*v),
        Literal::F64(v) => Literal::F64(*v),
        Literal::Str(v) => Literal::Str(v.clone()),
    }
}

/// The terms with each operation that has a find function replaced.
fn rewrite_terms(args: &Vec<Term>, canon: &StrMap<String>) -> (out: Vec<Term>)
    requires
        canon.wf(),
    ensures
        term_views(out@) == all_with_finds(term_views(args@), name_map(canon@)),
{
    let mut out: Vec<Term> = Vec::new();
    let n: usize = args.len();
    for i in 0..n
        invariant
            n == args@.len(),
            canon.wf(),
            out@.len() == i,
            forall|k: int|
                0 <= k < i ==> (#[trigger] out@[k])@ == args@[k]@.with_finds(name_map(canon@)),
    {
        out.push(rewrite_canon_in_term(&args[i], canon));
    }
    assert(term_views(out@) =~= all_with_finds(term_views(args@), name_map(canon@)));
    out
}

/// Whether some variable of the list stands in the term.
pub fn term_mentions(t: &Term, vars: &Vec<String>) -> (b: bool)
    ensures
        b == t@.mentions(name_set(vars@)),
    decreases t,
{
    match t {
        Term::Var(v) => holds_name(vars, v.as_str()),
        Term::Lit(_) => false,
        Term::Prim(_, args) => {
            let n: usize = args.len();
            for i in 0..n
                invariant
                    n == args@.len(),
                    t is Prim,
                    *args == t->Prim_1,
                    forall|k: int|
                        0 <= k < i ==> !(#[trigger] t@->Prim_1[k]).mentions(name_set(vars@)),
            {
                assert(decreases_to!(*t => args@[i as int]));
                assert(t@->Prim_1[i as int] == args@[i as int]@);
                if term_mentions(&args[i], vars) {
                    return true;
                }
            }
            false
        },
        Term::FuncCall { name: _, args, identity_on_miss: _ } => {
            let n: usize = args.len();
            for i in 0..n
                invariant
                    n == args@.len(),
                    t is FuncCall,
                    *args == t->args,
                    forall|k: int|
                        0 <= k < i ==> !(#[trigger] t@->FuncCall_1[k]).mentions(name_set(vars@)),
            {
                assert(decreases_to!(*t => args@[i as int]));
                assert(t@->FuncCall_1[i as int] == args@[i as int]@);
                if term_mentions(&args[i], vars) {
                    return true;
                }
            }
            false
        },
    }
}

/// Whether the term calls the function that `needle` names behind the prefix.
fn term_finds(t: &Term, needle: &String, udf: Ghost<Seq<char>>) -> (b: bool)
    requires
        needle@ == find_prefix() + udf@,
    ensures
        b == t@.finds(udf@),
    decreases t,
{
    match t {
        Term::Var(_) => false,
        Term::Lit(_) => false,
        Term::Prim(op, args) => {
            if *op == *needle {
                return true;
            }
            let n: usize = args.len();
            for i in 0..n
                invariant
                    n == args@.len(),
                    needle@ == find_prefix() + udf@,
                    t is Prim,
                    *op == t->Prim_0,
                    op@ != needle@,
                    *args == t->Prim_1,
                    forall|k: int| 0 <= k < i ==> !(#[trigger] t@->Prim_1[k]).finds(udf@),
            {
                assert(decreases_to!(*t => args@[i as int]));
                assert(t@->Prim_1[i as int] == args@[i as int]@);
                if term_finds(&args[i], needle, udf) {
                    return true;
                }
            }
            false
        },
        Term::FuncCall { name: _, args, identity_on_miss: _ } => {
            let n: usize = args.len();
            for i in 0..n
                invariant
                    n == args@.len(),
                    needle@ == find_prefix() + udf@,
                    t is FuncCall,
                    *args == t->args,
                    forall|k: int| 0 <= k < i ==> !(#[trigger] t@->FuncCall_1[k]).finds(udf@),
            {
                assert(decreases_to!(*t => args@[i as int]));
                assert(t@->FuncCall_1[i as int] == args@[i as int]@);
                if term_finds(&args[i], needle, udf) {
                    return true;
                }
            }
            false
        },
    }
}

/// Whether some of the terms calls the find function `udf`.
pub open spec fn any_finds(args: Seq<TermView>, udf: Seq<char>) -> bool {
    exists|i: int| 0 <= i < args.len() && (#[trigger] args[i]).finds(udf)
}

fn terms_find(args: &Vec<Term>, needle: &String, udf: Ghost<Seq<char>>) -> (b: bool)
    requires
        needle@ == find_prefix() + udf@,
    ensures
        b == any_finds(term_views(args@), udf@),
{
    let n: usize = args.len();
    for i in 0..n
        invariant
            n == args@.len(),
            needle@ == find_prefix() + udf@,
            forall|k: int| 0 <= k < i ==> !(#[trigger] term_views(args@)[k]).finds(udf@),
    {
        if term_finds(&args[i], needle, udf) {
            assert(term_views(args@)[i as int].finds(udf@));
            return true;
        }
    }
    false
}

/// An atom of a rule's body.
#[derive(Debug)]
pub enum Atom {
    /// A row of a table; the terms stand for all of its columns.
    Func { name: String, args: Vec<Term> },
    /// A term that has to be true.
    Filter(Term),
    /// Binds a variable to a term's value.
    Bind { var: String, expr: Term },
}

/// An action of a rule.
#[derive(Debug)]
pub enum Action {
    /// Inserts a row.
    Insert { name: String, args: Vec<Term> },
    /// Deletes the rows with the given key columns.
    Delete { name: String, key_args: Vec<Term> },
    /// Binds a variable to the id of a constructor's term, minted where there is none.
    LetCtor { var: String, name: String, args: Vec<Term> },
    /// Binds a variable to a term's value.
    LetExpr { var: String, expr: Term },
    /// Fails the run where the body matches.
    Panic { msg: String },
}

/// A rule.
#[derive(Debug)]
pub struct Rule {
    pub name: String,
    /// The ruleset; empty for the default one.
    pub ruleset: String,
    pub body: Vec<Atom>,
    pub actions: Vec<Action>,
}

/// What an atom holds.
pub enum AtomView {
    Func(Seq<char>, Seq<TermView>),
    Filter(TermView),
    Bind(Seq<char>, TermView),
}

/// What an action holds.
pub enum ActionView {
    Insert(Seq<char>, Seq<TermView>),
    Delete(Seq<char>, Seq<TermView>),
    LetCtor(Seq<char>, Seq<char>, Seq<TermView>),
    LetExpr(Seq<char>, TermView),
    Panic(Seq<char>),
}

/// What a rule holds.
#[verifier::ext_equal]
pub struct RuleView {
    pub name: Seq<char>,
    pub ruleset: Seq<char>,
    pub body: Seq<AtomView>,
    pub actions: Seq<ActionView>,
}

impl View for Atom {
    type V = AtomView;

    open spec fn view(&self) -> AtomView {
        match *self {
            Atom::Func { name, args } => AtomView::Func(name@, term_views(args@)),
            Atom::Filter(t) => AtomView::Filter(t@),
            Atom::Bind { var, expr } => AtomView::Bind(var@, expr@),
        }
    }
}

impl View for Action {
    type V = ActionView;

    open spec fn view(&self) -> ActionView {
        match *self {
            Action::Insert { name, args } => ActionView::Insert(name@, term_views(args@)),
            Action::Delete { name, key_args } => ActionView::Delete(name@, term_views(key_args@)),
            Action::LetCtor { var, name, args } => ActionView::LetCtor(
                var@,
                name@,
                term_views(args@),
            ),
            Action::LetExpr { var, expr } => ActionView::LetExpr(var@, expr@),
            Action::Panic { msg } => ActionView::Panic(msg@),
        }
    }
}

/// What atoms hold.
pub open spec fn atom_views(body: Seq<Atom>) -> Seq<AtomView> {
    body.map_values(|a: Atom| a@)
}

/// What actions hold.
pub open spec fn action_views(actions: Seq<Action>) -> Seq<ActionView> {
    actions.map_values(|a: Action| a@)
}

impl View for Rule {
    type V = RuleView;

    open spec fn view(&self) -> RuleView {
        RuleView {
            name: self.name@,
            ruleset: self.ruleset@,
            body: atom_views(self.body@),
            actions: action_views(self.actions@),
        }
    }
}

impl AtomView {
    /// The atom with each operation that has a find function replaced.
    pub open spec fn with_finds(self, canon: Map<Seq<char>, Seq<char>>) -> AtomView {
        match self {
            AtomView::Func(name, args) => AtomView::Func(name, all_with_finds(args, canon)),
            AtomView::Filter(t) => AtomView::Filter(t.with_finds(canon)),
            AtomView::Bind(var, expr) => AtomView::Bind(var, expr.with_finds(canon)),
        }
    }

    /// Whether the atom calls the find function `udf`.
    pub open spec fn finds(self, udf: Seq<char>) -> bool {
        match self {
            AtomView::Func(name, args) => any_finds(args, udf),
            AtomView::Filter(t) => t.finds(udf),
            AtomView::Bind(var, expr) => expr.finds(udf),
        }
    }

    /// Whether the atom is a row of a table, one of `tables` or one of the others, and `v` stands
    /// in it as a column.
    pub open spec fn binds(self, tables: Set<Seq<char>>, among: bool, v: Seq<char>) -> bool {
        match self {
            AtomView::Func(name, args) => tables.contains(name) == among && args.contains(
                TermView::Var(v),
            ),
            _ => false,
        }
    }

    /// Whether the atom stays when the atoms of `tables` go, and with them the variables of
    /// `gone`.
    pub open spec fn stays(self, tables: Set<Seq<char>>, gone: Set<Seq<char>>) -> bool {
        match self {
            AtomView::Func(name, args) => !tables.contains(name),
            AtomView::Filter(t) => !t.mentions(gone),
            AtomView::Bind(var, expr) => !gone.contains(var) && !expr.mentions(gone),
        }
    }
}

impl ActionView {
    /// The action with each operation that has a find function replaced.
    pub open spec fn with_finds(self, canon: Map<Seq<char>, Seq<char>>) -> ActionView {
        match self {
            ActionView::Insert(name, args) => ActionView::Insert(name, all_with_finds(args, canon)),
            ActionView::Delete(name, args) => ActionView::Delete(name, all_with_finds(args, canon)),
            ActionView::LetCtor(var, name, args) => ActionView::LetCtor(
                var,
                name,
                all_with_finds(args, canon),
            ),
            ActionView::LetExpr(var, expr) => ActionView::LetExpr(var, expr.with_finds(canon)),
            ActionView::Panic(msg) => self,
        }
    }

    /// Whether the action calls the find function `udf`.
    pub open spec fn finds(self, udf: Seq<char>) -> bool {
        match self {
            ActionView::Insert(name, args) => any_finds(args, udf),
            ActionView::Delete(name, args) => any_finds(args, udf),
            ActionView::LetCtor(var, name, args) => any_finds(args, udf),
            ActionView::LetExpr(var, expr) => expr.finds(udf),
            ActionView::Panic(msg) => false,
        }
    }
}

/// The variables that only atoms of the change relations bind.
pub open spec fn change_only(body: Seq<AtomView>, changes: Set<Seq<char>>) -> Set<Seq<char>> {
    Set::new(
        |v: Seq<char>|
            (exists|i: int| 0 <= i < body.len() && (#[trigger] body[i]).binds(changes, true, v))
                && !(exists|i: int|
                0 <= i < body.len() && (#[trigger] body[i]).binds(changes, false, v)),
    )
}

/// The atoms that stay when the atoms of `tables` go, and with them the variables of `gone`.
pub open spec fn kept(
    body: Seq<AtomView>,
    tables: Set<Seq<char>>,
    gone: Set<Seq<char>>,
) -> Seq<AtomView>
    decreases body.len(),
{
    if body.len() == 0 {
        Seq::empty()
    } else if body.last().stays(tables, gone) {
        kept(body.drop_last(), tables, gone).push(body.last())
    } else {
        kept(body.drop_last(), tables, gone)
    }
}

/// The body without the change relations and without the filters and bindings that hang on them.
pub open spec fn without_changes(body: Seq<AtomView>, changes: Set<Seq<char>>) -> Seq<AtomView> {
    kept(body, changes, change_only(body, changes))
}

/// The rule in the form that the in-core union-find calls for: a rebuild rule scans its view in
/// place of joining a change relation, and every canonicalizing primitive is a call of its find
/// function.
pub open spec fn native_form(
    r: RuleView,
    changes: Set<Seq<char>>,
    canon: Map<Seq<char>, Seq<char>>,
) -> RuleView {
    let body = if family(r.name) == "rebuild_rule"@ {
        without_changes(r.body, changes)
    } else {
        r.body
    };
    RuleView {
        name: r.name,
        ruleset: r.ruleset,
        body: body.map_values(|a: AtomView| a.with_finds(canon)),
        actions: r.actions.map_values(|a: ActionView| a.with_finds(canon)),
    }
}

/// The variables among an atom's columns, added to a list.
fn add_vars(args: &Vec<Term>, vars: &mut Vec<String>)
    ensures
        forall|v: Seq<char>| #[trigger]
            texts(final(vars)@).contains(v) <==> texts(old(vars)@).contains(v) || term_views(
                args@,
            ).contains(TermView::Var(v)),
{
    let n: usize = args.len();
    let ghost views = term_views(args@);
    assert(views.take(0) =~= Seq::empty());
    for i in 0..n
        invariant
            n == args@.len(),
            views == term_views(args@),
            forall|v: Seq<char>| #[trigger]
                texts(vars@).contains(v) <==> texts(old(vars)@).contains(v) || views.take(
                    i as int,
                ).contains(TermView::Var(v)),
    {
        let ghost before = texts(vars@);
        let ghost now = views.take(i as int);
        let ghost next = views.take(i + 1);
        assert(next =~= now.push(views[i as int]));
        proof {
            crate::feldera::expr::lemma_push_contains(now, views[i as int]);
        }
        match &args[i] {
            Term::Var(v) => {
                add_name(vars, v.as_str());
                proof {
                    assert(views[i as int] == TermView::Var(v@));
                    if !before.contains(v@) {
                        crate::feldera::expr::lemma_push_contains(before, v@);
                    }
                }
            },
            _ => {},
        }
    }
    assert(views.take(n as int) =~= views);
}

/// The variables that atoms of the change relations bind, or those that the other ones do.
fn bound_vars(body: &Vec<Atom>, changes: &Vec<String>, among: bool) -> (vars: Vec<String>)
    ensures
        forall|v: Seq<char>| #[trigger]
            texts(vars@).contains(v) <==> exists|i: int|
                0 <= i < body@.len() && (#[trigger] atom_views(body@)[i]).binds(
                    name_set(changes@),
                    among,
                    v,
                ),
{
    let mut vars: Vec<String> = Vec::new();
    let n: usize = body.len();
    let ghost views = atom_views(body@);
    for i in 0..n
        invariant
            n == body@.len(),
            views == atom_views(body@),
            forall|v: Seq<char>| #[trigger]
                texts(vars@).contains(v) <==> exists|k: int|
                    0 <= k < i && (#[trigger] views[k]).binds(name_set(changes@), among, v),
    {
        let ghost before = texts(vars@);
        match &body[i] {
            Atom::Func { name, args } => {
                if holds_name(changes, name.as_str()) == among {
                    add_vars(args, &mut vars);
                    proof {
                        assert forall|v: Seq<char>| #[trigger]
                            texts(vars@).contains(v) <==> exists|k: int|
                                0 <= k < i + 1 && (#[trigger] views[k]).binds(
                                    name_set(changes@),
                                    among,
                                    v,
                                ) by {
                            if term_views(args@).contains(TermView::Var(v)) {
                                assert(views[i as int].binds(name_set(changes@), among, v));
                            }
                        }
                    }
                }
            },
            _ => {},
        }
    }
    vars
}

/// The atom with each operation that has a find function replaced.
fn rewrite_atom(a: &Atom, canon: &StrMap<String>) -> (r: Atom)
    requires
        canon.wf(),
    ensures
        r@ == a@.with_finds(name_map(canon@)),
{
    match a {
        Atom::Func { name, args } => Atom::Func {
            name: name.clone(),
            args: rewrite_terms(args, canon),
        },
        Atom::Filter(t) => Atom::Filter(rewrite_canon_in_term(t, canon)),
        Atom::Bind { var, expr } => Atom::Bind {
            var: var.clone(),
            expr: rewrite_canon_in_term(expr, canon),
        },
    }
}

/// The action with each operation that has a find function replaced.
fn rewrite_action(a: &Action, canon: &StrMap<String>) -> (r: Action)
    requires
        canon.wf(),
    ensures
        r@ == a@.with_finds(name_map(canon@)),
{
    match a {
        Action::Insert { name, args } => Action::Insert {
            name: name.clone(),
            args: rewrite_terms(args, canon),
        },
        Action::Delete { name, key_args } => Action::Delete {
            name: name.clone(),
            key_args: rewrite_terms(key_args, canon),
        },
        Action::LetCtor { var, name, args } => Action::LetCtor {
            var: var.clone(),
            name: name.clone(),
            args: rewrite_terms(args, canon),
        },
        Action::LetExpr { var, expr } => Action::LetExpr {
            var: var.clone(),
            expr: rewrite_canon_in_term(expr, canon),
        },
        Action::Panic { msg } => Action::Panic { msg: msg.clone() },
    }
}

/// Whether an atom stays when the atoms of `tables` go, and with them the variables of `gone`.
fn atom_stays(a: &Atom, tables: &Vec<String>, gone: &Vec<String>) -> (b: bool)
    ensures
        b == a@.stays(name_set(tables@), name_set(gone@)),
{
    match a {
        Atom::Func { name, args: _ } => !holds_name(tables, name.as_str()),
        Atom::Filter(t) => !term_mentions(t, gone),
        Atom::Bind { var, expr } => !holds_name(gone, var.as_str()) && !term_mentions(expr, gone),
    }
}

/// The variables of `vars` that are not among `others`.
fn without_names(vars: &Vec<String>, others: &Vec<String>) -> (r: Vec<String>)
    ensures
        forall|v: Seq<char>| #[trigger]
            texts(r@).contains(v) <==> texts(vars@).contains(v) && !texts(others@).contains(v),
{
    let mut r: Vec<String> = Vec::new();
    let n: usize = vars.len();
    let ghost all = texts(vars@);
    for i in 0..n
        invariant
            n == vars@.len(),
            all == texts(vars@),
            forall|v: Seq<char>| #[trigger]
                texts(r@).contains(v) <==> all.take(i as int).contains(v) && !texts(
                    others@,
                ).contains(v),
    {
        let ghost before = texts(r@);
        assert(all.take(i + 1) =~= all.take(i as int).push(all[i as int]));
        proof {
            crate::feldera::expr::lemma_push_contains(all.take(i as int), all[i as int]);
        }
        if !holds_name(others, vars[i].as_str()) {
            add_name(&mut r, vars[i].as_str());
            proof {
                if !before.contains(all[i as int]) {
                    crate::feldera::expr::lemma_push_contains(before, all[i as int]);
                }
            }
        }
    }
    assert(all.take(n as int) =~= all);
    r
}

/// The rule in the form that the in-core union-find calls for.
pub fn rewrite_native_uf_rule(
    rule: &Rule,
    changes: &Vec<String>,
    canon: &StrMap<String>,
) -> (r: Rule)
    requires
        canon.wf(),
    ensures
        r@ == native_form(rule@, name_set(changes@), name_map(canon@)),
{
    let strip = is_rebuild_rule_name(rule.name.as_str());
    let gone = if strip {
        let mine = bound_vars(&rule.body, changes, true);
        let others = bound_vars(&rule.body, changes, false);
        without_names(&mine, &others)
    } else {
        Vec::new()
    };
    let ghost c = name_map(canon@);
    let ghost tables = name_set(changes@);
    let ghost views = rule@.body;
    let ghost left = |k: int|
        if strip {
            kept(views.take(k), tables, name_set(gone@))
        } else {
            views.take(k)
        };
    let mut body: Vec<Atom> = Vec::new();
    let n: usize = rule.body.len();
    assert(views.take(0) =~= Seq::empty());
    assert(atom_views(body@) =~= left(0).map_values(|a: AtomView| a.with_finds(c)));
    for i in 0..n
        invariant
            n == rule.body@.len(),
            canon.wf(),
            c == name_map(canon@),
            tables == name_set(changes@),
            views == atom_views(rule.body@),
            left == (|k: int|
                if strip {
                    kept(views.take(k), tables, name_set(gone@))
                } else {
                    views.take(k)
                }),
            atom_views(body@) == left(i as int).map_values(|a: AtomView| a.with_finds(c)),
    {
        let ghost before = atom_views(body@);
        assert(views.take(i + 1).drop_last() =~= views.take(i as int));
        assert(views.take(i + 1).last() == views[i as int]);
        if !strip || atom_stays(&rule.body[i], changes, &gone) {
            let a = rewrite_atom(&rule.body[i], canon);
            body.push(a);
            proof {
                assert(left(i + 1) =~= left(i as int).push(views[i as int]));
                assert(atom_views(body@) =~= before.push(a@));
                assert(atom_views(body@) =~= left(i + 1).map_values(
                    |a: AtomView| a.with_finds(c),
                ));
            }
        }
    }
    assert(views.take(n as int) =~= views);
    proof {
        if strip {
            assert(name_set(gone@) =~= change_only(views, tables));
        }
    }
    let mut actions: Vec<Action> = Vec::new();
    let m: usize = rule.actions.len();
    let ghost acts = rule@.actions;
    for i in 0..m
        invariant
            m == rule.actions@.len(),
            canon.wf(),
            c == name_map(canon@),
            acts == action_views(rule.actions@),
            action_views(actions@) == acts.take(i as int).map_values(
                |a: ActionView| a.with_finds(c),
            ),
    {
        let ghost before = action_views(actions@);
        let a = rewrite_action(&rule.actions[i], canon);
        actions.push(a);
        proof {
            assert(action_views(actions@) =~= before.push(a@));
            assert(acts.take(i + 1) =~= acts.take(i as int).push(acts[i as int]));
            assert(action_views(actions@) =~= acts.take(i + 1).map_values(
                |a: ActionView| a.with_finds(c),
            ));
        }
    }
    assert(acts.take(m as int) =~= acts);
    Rule { name: rule.name.clone(), ruleset: rule.ruleset.clone(), body, actions }
}

/// Whether the rule calls the find function `udf`.
pub open spec fn rule_finds(r: RuleView, udf: Seq<char>) -> bool {
    (exists|i: int| 0 <= i < r.body.len() && (#[trigger] r.body[i]).finds(udf)) || (exists|i: int|
        0 <= i < r.actions.len() && (#[trigger] r.actions[i]).finds(udf))
}

fn rule_calls(rule: &Rule, udf: &String) -> (b: bool)
    ensures
        b == rule_finds(rule@, udf@),
{
    let mut needle = "__duck_uf_find:".to_owned();
    needle.append(udf.as_str());
    let ghost u = udf@;
    let n: usize = rule.body.len();
    for i in 0..n
        invariant
            n == rule.body@.len(),
            u == udf@,
            needle@ == find_prefix() + u,
            forall|k: int| 0 <= k < i ==> !(#[trigger] rule@.body[k]).finds(u),
    {
        let hit = match &rule.body[i] {
            Atom::Func { name: _, args } => terms_find(args, &needle, Ghost(u)),
            Atom::Filter(t) => term_finds(t, &needle, Ghost(u)),
            Atom::Bind { var: _, expr } => term_finds(expr, &needle, Ghost(u)),
        };
        if hit {
            assert(rule@.body[i as int].finds(u));
            return true;
        }
    }
    let m: usize = rule.actions.len();
    for i in 0..m
        invariant
            m == rule.actions@.len(),
            u == udf@,
            needle@ == find_prefix() + u,
            forall|k: int| 0 <= k < rule@.body.len() ==> !(#[trigger] rule@.body[k]).finds(u),
            forall|k: int| 0 <= k < i ==> !(#[trigger] rule@.actions[k]).finds(u),
    {
        let hit = match &rule.actions[i] {
            Action::Insert { name: _, args } => terms_find(args, &needle, Ghost(u)),
            Action::Delete { name: _, key_args } => terms_find(key_args, &needle, Ghost(u)),
            Action::LetCtor { var: _, name: _, args } => terms_find(args, &needle, Ghost(u)),
            Action::LetExpr { var: _, expr } => term_finds(expr, &needle, Ghost(u)),
            Action::Panic { msg: _ } => false,
        };
        if hit {
            assert(rule@.actions[i as int].finds(u));
            return true;
        }
    }
    false
}

/// The tables of the find functions that the rule calls, each once, in the order in which the
/// functions were registered.
pub open spec fn gate_tables(
    r: RuleView,
    udfs: Seq<Seq<char>>,
    tables: Map<Seq<char>, Seq<char>>,
) -> Seq<Seq<char>>
    decreases udfs.len(),
{
    if udfs.len() == 0 {
        Seq::empty()
    } else {
        let front = gate_tables(r, udfs.drop_last(), tables);
        if rule_finds(r, udfs.last()) {
            with_name(front, tables[udfs.last()])
        } else {
            front
        }
    }
}

/// The tables of the find functions that the rule calls.
pub fn native_uf_rule_gate_tables(rule: &Rule, udf_to_table: &StrMap<String>) -> (r: Vec<String>)
    requires
        udf_to_table.wf(),
    ensures
        texts(r@) == gate_tables(rule@, udf_to_table.order(), name_map(udf_to_table@)),
{
    let mut r: Vec<String> = Vec::new();
    let n: usize = udf_to_table.len();
    let ghost order = udf_to_table.order();
    let ghost tables = name_map(udf_to_table@);
    assert(order.take(0) =~= Seq::empty());
    assert(texts(r@) =~= Seq::empty());
    for i in 0..n
        invariant
            n == order.len(),
            udf_to_table.wf(),
            order == udf_to_table.order(),
            tables == name_map(udf_to_table@),
            texts(r@) == gate_tables(rule@, order.take(i as int), tables),
    {
        assert(order.take(i + 1).drop_last() =~= order.take(i as int));
        assert(order.take(i + 1).last() == order[i as int]);
        let udf = udf_to_table.name_at(i);
        if rule_calls(rule, udf) {
            add_name(&mut r, udf_to_table.val_at(i).as_str());
        }
    }
    assert(order.take(n as int) =~= order);
    r
}

/// A term without canonicalizing primitives stays as it is.
proof fn lemma_no_finds(t: TermView)
    ensures
        t.with_finds(Map::empty()) == t,
    decreases t,
{
    match t {
        TermView::Prim(op, args) => {
            let r = t.with_finds(Map::empty());
            assert forall|i: int| 0 <= i < args.len() implies r->Prim_1[i] == args[i] by {
                lemma_no_finds(args[i]);
            }
            assert(r->Prim_1 =~= args);
        },
        TermView::FuncCall(name, args, identity) => {
            let r = t.with_finds(Map::empty());
            assert forall|i: int| 0 <= i < args.len() implies r->FuncCall_1[i] == args[i] by {
                lemma_no_finds(args[i]);
            }
            assert(r->FuncCall_1 =~= args);
        },
        _ => {},
    }
}

proof fn lemma_no_finds_in(args: Seq<TermView>)
    ensures
        all_with_finds(args, Map::empty()) == args,
{
    assert forall|i: int| 0 <= i < args.len() implies all_with_finds(args, Map::empty())[i]
        == args[i] by {
        lemma_no_finds(args[i]);
    }
    assert(all_with_finds(args, Map::empty()) =~= args);
}

/// No variable of the empty set stands anywhere.
proof fn lemma_mentions_none(t: TermView)
    ensures
        !t.mentions(Set::empty()),
    decreases t,
{
    match t {
        TermView::Prim(op, args) => {
            assert forall|i: int| 0 <= i < args.len() implies !(#[trigger] args[i]).mentions(
                Set::empty(),
            ) by {
                lemma_mentions_none(args[i]);
            }
        },
        TermView::FuncCall(name, args, identity) => {
            assert forall|i: int| 0 <= i < args.len() implies !(#[trigger] args[i]).mentions(
                Set::empty(),
            ) by {
                lemma_mentions_none(args[i]);
            }
        },
        _ => {},
    }
}

proof fn lemma_keeps_all(body: Seq<AtomView>)
    ensures
        kept(body, Set::empty(), Set::empty()) == body,
    decreases body.len(),
{
    if body.len() > 0 {
        lemma_keeps_all(body.drop_last());
        match body.last() {
            AtomView::Func(name, args) => {},
            AtomView::Filter(t) => {
                lemma_mentions_none(t);
            },
            AtomView::Bind(var, expr) => {
                lemma_mentions_none(expr);
            },
        }
        assert(body.drop_last().push(body.last()) =~= body);
    } else {
        assert(body =~= Seq::empty());
    }
}

/// With no change relation and no canonicalizing primitive a rule stays as it is.
pub proof fn native_form_is_idle(r: RuleView)
    ensures
        native_form(r, Set::empty(), Map::empty()) == r,
{
    let c = Map::<Seq<char>, Seq<char>>::empty();
    let none = Set::<Seq<char>>::empty();
    assert(change_only(r.body, none) =~= none) by {
        assert forall|v: Seq<char>, i: int| 0 <= i < r.body.len() implies !(
        #[trigger] r.body[i].binds(none, true, v)) by {}
    }
    lemma_keeps_all(r.body);
    let out = native_form(r, none, c);
    assert forall|i: int| 0 <= i < r.body.len() implies out.body[i] == r.body[i] by {
        match r.body[i] {
            AtomView::Func(name, args) => {
                lemma_no_finds_in(args);
            },
            AtomView::Filter(t) => {
                lemma_no_finds(t);
            },
            AtomView::Bind(var, expr) => {
                lemma_no_finds(expr);
            },
        }
    }
    assert(out.body =~= r.body);
    assert forall|i: int| 0 <= i < r.actions.len() implies out.actions[i] == r.actions[i] by {
        match r.actions[i] {
            ActionView::Insert(name, args) => {
                lemma_no_finds_in(args);
            },
            ActionView::Delete(name, args) => {
                lemma_no_finds_in(args);
            },
            ActionView::LetCtor(var, name, args) => {
                lemma_no_finds_in(args);
            },
            ActionView::LetExpr(var, expr) => {
                lemma_no_finds(expr);
            },
            ActionView::Panic(msg) => {},
        }
    }
    assert(out.actions =~= r.actions);
}

proof fn lemma_kept_stay(body: Seq<AtomView>, tables: Set<Seq<char>>, gone: Set<Seq<char>>, i: int)
    requires
        0 <= i < kept(body, tables, gone).len(),
    ensures
        kept(body, tables, gone)[i].stays(tables, gone),
    decreases body.len(),
{
    if body.len() > 0 && i < kept(body.drop_last(), tables, gone).len() {
        lemma_kept_stay(body.drop_last(), tables, gone, i);
    }
}

/// A rebuild rule in native form reads no change relation.
pub proof fn rebuild_reads_no_change(
    r: RuleView,
    changes: Set<Seq<char>>,
    canon: Map<Seq<char>, Seq<char>>,
    i: int,
)
    requires
        family(r.name) == "rebuild_rule"@,
        0 <= i < native_form(r, changes, canon).body.len(),
    ensures
        native_form(r, changes, canon).body[i] matches AtomView::Func(name, _) ==> !changes.contains(
            name,
        ),
{
    lemma_kept_stay(r.body, changes, change_only(r.body, changes), i);
}

/// Gate tables are those of the find functions that a rule calls, each once.
pub proof fn gate_tables_exact(
    r: RuleView,
    udfs: Seq<Seq<char>>,
    tables: Map<Seq<char>, Seq<char>>,
)
    ensures
        gate_tables(r, udfs, tables).no_duplicates(),
        forall|t: Seq<char>| #[trigger]
            gate_tables(r, udfs, tables).contains(t) <==> exists|i: int|
                0 <= i < udfs.len() && rule_finds(r, #[trigger] udfs[i]) && tables[udfs[i]] == t,
    decreases udfs.len(),
{
    if udfs.len() > 0 {
        let front = udfs.drop_last();
        gate_tables_exact(r, front, tables);
        let g = gate_tables(r, front, tables);
        let last = udfs.last();
        let all = gate_tables(r, udfs, tables);
        crate::feldera::expr::lemma_push_contains(g, tables[last]);
        assert forall|t: Seq<char>| #[trigger] all.contains(t) <==> exists|i: int|
            0 <= i < udfs.len() && rule_finds(r, #[trigger] udfs[i]) && tables[udfs[i]] == t by {
            if g.contains(t) {
                let i = choose|i: int|
                    0 <= i < front.len() && rule_finds(r, #[trigger] front[i]) && tables[front[i]]
                        == t;
                assert(udfs[i] == front[i]);
            }
            if rule_finds(r, last) && tables[last] == t {
                assert(udfs[udfs.len() - 1] == last);
            }
            if exists|i: int|
                0 <= i < udfs.len() && rule_finds(r, #[trigger] udfs[i]) && tables[udfs[i]] == t {
                let i = choose|i: int|
                    0 <= i < udfs.len() && rule_finds(r, #[trigger] udfs[i]) && tables[udfs[i]]
                        == t;
                if i < front.len() {
                    assert(front[i] == udfs[i]);
                }
            }
        }
    }
}

} // verus!
