//! Building rules, and sorting out what a call to run some of them comes to.
use crate::backend::{
    ColumnTy, ExternalFunctionId, FunctionId, QueryEntry, RuleId, Value, Variable, VariableId,
};
use crate::feldera::circuit_rebuild::{
    all_rebuild, names_a_table, recognize, roles_are, some_wide_view, RebuildRoles,
};
use crate::feldera::compile::{
    slots_from_entries, slots_of_entries, BodyAtom, BodyOp, HeadOp, RuleIr, Slot,
};
use crate::feldera::egraph::{EGraph, EgState};
use crate::feldera::head::op_fits;
use crate::feldera::interpret::rule_fits;
use crate::text::str_eq;
use vstd::prelude::*;

verus! {

/// Why a rule cannot be built.
#[derive(Clone, Debug)]
pub enum RuleError {
    /// A body atom asks for rows by whether they are subsumed.
    SubsumptionFilter,
    /// An inequality has fewer than two operands.
    Operands(usize),
    /// A body primitive is no inequality.
    BodyPrim(ExternalFunctionId),
    /// A head calls a primitive.
    HeadCall,
    /// A head looks up a function.
    HeadLookup,
    /// A head subsumes a row.
    HeadSubsume,
    /// A head unites two ids.
    HeadUnion,
    /// A head fails with a message.
    HeadPanic(String),
}

/// Why a rule cannot be built, as a value.
pub enum RuleErrorView {
    SubsumptionFilter,
    Operands(usize),
    BodyPrim(ExternalFunctionId),
    HeadCall,
    HeadLookup,
    HeadSubsume,
    HeadUnion,
    HeadPanic(Seq<char>),
}

impl View for RuleError {
    type V = RuleErrorView;

    open spec fn view(&self) -> RuleErrorView {
        match *self {
            RuleError::SubsumptionFilter => RuleErrorView::SubsumptionFilter,
            RuleError::Operands(n) => RuleErrorView::Operands(n),
            RuleError::BodyPrim(id) => RuleErrorView::BodyPrim(id),
            RuleError::HeadCall => RuleErrorView::HeadCall,
            RuleError::HeadLookup => RuleErrorView::HeadLookup,
            RuleError::HeadSubsume => RuleErrorView::HeadSubsume,
            RuleError::HeadUnion => RuleErrorView::HeadUnion,
            RuleError::HeadPanic(m) => RuleErrorView::HeadPanic(m@),
        }
    }
}

/// The first variable that a builder makes; those of callers are smaller.
pub const FIRST_VAR: u32 = 1048576;

/// A rule in the making. What it cannot hold is noted, and the rule is refused when it is built.
#[derive(Debug)]
pub struct FelderaRuleBuilder {
    ir: RuleIr,
    next_var: u32,
    deferred: Option<RuleError>,
}

/// What a rule in the making holds.
#[verifier::ext_equal]
pub struct BuilderView {
    pub name: Seq<char>,
    pub body: Seq<BodyOp>,
    pub head: Seq<HeadOp>,
    pub next_var: u32,
    pub deferred: Option<RuleErrorView>,
}

impl View for FelderaRuleBuilder {
    type V = BuilderView;

    closed spec fn view(&self) -> BuilderView {
        BuilderView {
            name: self.ir.name@,
            body: self.ir.body@,
            head: self.ir.head@,
            next_var: self.next_var,
            deferred: match self.deferred {
                Some(e) => Some(e@),
                None => None,
            },
        }
    }
}

/// Whether a primitive's name is that of an inequality.
pub open spec fn is_inequality(name: Option<Seq<char>>) -> bool {
    name == Some("!="@) || name == Some("bool-!="@) || name == Some("value-!="@)
}

/// The first of two errors.
pub open spec fn first_error(a: Option<RuleErrorView>, b: RuleErrorView) -> Option<RuleErrorView> {
    match a {
        Some(e) => Some(e),
        None => Some(b),
    }
}

/// A rule without body and head.
pub open spec fn empty_rule(name: Seq<char>) -> BuilderView {
    BuilderView {
        name,
        body: Seq::empty(),
        head: Seq::empty(),
        next_var: FIRST_VAR,
        deferred: None,
    }
}

/// A call that a builder accepts.
pub enum BuilderCall {
    /// Makes a variable.
    NewVar,
    /// Adds to the body.
    Query(BodyOp),
    /// Adds to the head.
    Action(HeadOp),
    /// Asks for something that the rule cannot hold.
    Refused(RuleErrorView),
}

/// What a rule in the making holds after a call.
pub open spec fn after_call(b: BuilderView, c: BuilderCall) -> BuilderView {
    match c {
        BuilderCall::NewVar => BuilderView { next_var: (b.next_var + 1) as u32, ..b },
        BuilderCall::Query(op) => BuilderView { body: b.body.push(op), ..b },
        BuilderCall::Action(op) => BuilderView { head: b.head.push(op), ..b },
        BuilderCall::Refused(e) => BuilderView { deferred: first_error(b.deferred, e), ..b },
    }
}

/// What a rule in the making holds after calls, one after the other.
pub open spec fn after_calls(b: BuilderView, calls: Seq<BuilderCall>) -> BuilderView
    decreases calls.len(),
{
    if calls.len() == 0 {
        b
    } else {
        after_call(after_calls(b, calls.drop_last()), calls.last())
    }
}

/// Whether the call at place `i` is the first that asks for something that the rule cannot hold.
pub open spec fn is_first_refusal(calls: Seq<BuilderCall>, i: int) -> bool {
    &&& 0 <= i < calls.len()
    &&& calls[i] is Refused
    &&& forall|j: int| 0 <= j < i ==> !((#[trigger] calls[j]) is Refused)
}

/// What building a rule does to the e-graph, and what it gives.
pub open spec fn built(
    s: EgState,
    b: BuilderView,
    s2: EgState,
    r: Result<RuleId, RuleErrorView>,
) -> bool {
    match b.deferred {
        Some(e) => r == Err::<RuleId, RuleErrorView>(e) && s2 == s,
        None => {
            &&& r matches Ok(id) && id.rep == s.rules.len()
            &&& s2.rules.len() == s.rules.len() + 1
            &&& s2 == (EgState { rules: s.rules.push(s2.rules.last()), ..s })
            &&& s2.rules.last() matches Some(rule) && rule.name@ == b.name && rule.body@ == b.body
                && rule.head@ == b.head
        },
    }
}

/// Building fails exactly where one of the calls asked for something that the rule cannot hold. The
/// error is that of the first such call, and no rule is registered. Else the rule gets the next
/// identifier, and no other rule is touched.
pub proof fn first_refusal_decides(
    s: EgState,
    name: Seq<char>,
    calls: Seq<BuilderCall>,
    s2: EgState,
    r: Result<RuleId, RuleErrorView>,
)
    requires
        built(s, after_calls(empty_rule(name), calls), s2, r),
    ensures
        r is Err <==> exists|i: int| is_first_refusal(calls, i),
        forall|i: int| #[trigger]
            is_first_refusal(calls, i) ==> calls[i] == BuilderCall::Refused(r->Err_0) && s2 == s,
        r matches Ok(id) ==> {
            &&& id.rep == s.rules.len()
            &&& s2.rules.len() == s.rules.len() + 1
            &&& s2.rules.drop_last() == s.rules
            &&& s2 == (EgState { rules: s2.rules, ..s })
        },
{
    lemma_deferred(empty_rule(name), calls);
    if r is Ok {
        assert(s2.rules.drop_last() =~= s.rules);
    }
}

proof fn lemma_deferred(b: BuilderView, calls: Seq<BuilderCall>)
    requires
        b.deferred is None,
    ensures
        match after_calls(b, calls).deferred {
            Some(e) => exists|i: int|
                is_first_refusal(calls, i) && calls[i] == BuilderCall::Refused(e),
            None => forall|j: int| 0 <= j < calls.len() ==> !((#[trigger] calls[j]) is Refused),
        },
        forall|i: int| #[trigger]
            is_first_refusal(calls, i) ==> after_calls(b, calls).deferred is Some && calls[i]
                == BuilderCall::Refused(after_calls(b, calls).deferred->0),
    decreases calls.len(),
{
    if calls.len() > 0 {
        let less = calls.drop_last();
        let last = calls.len() - 1;
        lemma_deferred(b, less);
        assert forall|j: int| 0 <= j < less.len() implies #[trigger] less[j] == calls[j] by {}
        match after_calls(b, less).deferred {
            Some(e) => {
                let i = choose|i: int|
                    is_first_refusal(less, i) && less[i] == BuilderCall::Refused(e);
                assert forall|j: int| 0 <= j < i implies !((#[trigger] calls[j]) is Refused) by {
                    assert(!(less[j] is Refused));
                }
                assert(is_first_refusal(calls, i));
            },
            None => {
                if calls.last() is Refused {
                    assert forall|j: int| 0 <= j < last implies !((#[trigger] calls[j]) is Refused) by {
                        assert(!(less[j] is Refused));
                    }
                    assert(is_first_refusal(calls, last));
                } else {
                    assert forall|j: int| 0 <= j < calls.len() implies !((
                    #[trigger] calls[j]) is Refused) by {
                        if j < last {
                            assert(!(less[j] is Refused));
                        }
                    }
                }
            },
        }
        assert forall|i: int| #[trigger] is_first_refusal(calls, i) implies after_calls(
            b,
            calls,
        ).deferred is Some && calls[i] == BuilderCall::Refused(
            after_calls(b, calls).deferred->0,
        ) by {
            match after_calls(b, calls).deferred {
                Some(e) => {
                    let k = choose|k: int|
                        is_first_refusal(calls, k) && calls[k] == BuilderCall::Refused(e);
                    if k < i {
                        assert(!(calls[k] is Refused));
                    } else if i < k {
                        assert(!(calls[i] is Refused));
                    }
                },
                None => {
                    assert(!(calls[i] is Refused));
                },
            }
        }
    }
}

impl FelderaRuleBuilder {
    /// A rule without body and head.
    pub fn new(desc: &str) -> (b: FelderaRuleBuilder)
        ensures
            b@ == empty_rule(desc@),
    {
        FelderaRuleBuilder {
            ir: RuleIr { name: desc.to_owned(), body: Vec::new(), head: Vec::new() },
            next_var: FIRST_VAR,
            deferred: None,
        }
    }

    /// A new variable.
    pub fn new_var(&mut self, _ty: ColumnTy) -> (e: QueryEntry)
        requires
            old(self)@.next_var < u32::MAX,
        ensures
            e matches QueryEntry::Var(v) && v.id.rep == old(self)@.next_var && v.name is None,
            final(self)@ == after_call(old(self)@, BuilderCall::NewVar),
    {
        let id = VariableId::new(self.next_var);
        self.next_var = self.next_var + 1;
        QueryEntry::Var(Variable { id, name: None })
    }

    /// A new variable with a name.
    pub fn new_var_named(&mut self, _ty: ColumnTy, name: &str) -> (e: QueryEntry)
        requires
            old(self)@.next_var < u32::MAX,
        ensures
            e matches QueryEntry::Var(v) && v.id.rep == old(self)@.next_var && v.name is Some
                && v.name->0@ == name@,
            final(self)@ == after_call(old(self)@, BuilderCall::NewVar),
    {
        let id = VariableId::new(self.next_var);
        self.next_var = self.next_var + 1;
        QueryEntry::Var(Variable { id, name: Some(name.to_owned()) })
    }

    /// Adds a body atom.
    pub fn query_table(
        &mut self,
        func: FunctionId,
        entries: &[QueryEntry],
        is_subsumed: Option<bool>,
    ) -> (r: Result<(), RuleError>)
        ensures
            r is Ok <==> is_subsumed is None,
            r matches Err(e) ==> e@ is SubsumptionFilter && final(self)@ == old(self)@,
            r is Ok ==> {
                &&& final(self)@.body.len() == old(self)@.body.len() + 1
                &&& final(self)@ == after_call(
                    old(self)@,
                    BuilderCall::Query(final(self)@.body.last()),
                )
                &&& final(self)@.body.last() matches BodyOp::Atom(a) && a.func == func && a.slots@
                    == slots_of_entries(entries@)
            },
    {
        if is_subsumed.is_some() {
            return Err(RuleError::SubsumptionFilter);
        }
        self.ir.body.push(BodyOp::Atom(BodyAtom::from_entries(func, entries)));
        Ok(())
    }

    /// Adds a body primitive, which has to be an inequality: a guard that drops the matches on
    /// which its first two entries are equal.
    pub fn query_prim(
        &mut self,
        eg: &EGraph,
        func: ExternalFunctionId,
        entries: &[QueryEntry],
        _ret_ty: ColumnTy,
    ) -> (r: Result<(), RuleError>)
        requires
            eg.wf(),
        ensures
            ({
                let name = prim_name_of(eg@, func);
                &&& r is Ok <==> is_inequality(name) && entries@.len() >= 2
                &&& r matches Err(e) ==> final(self)@ == old(self)@ && e@ == if is_inequality(
                    name,
                ) {
                    RuleErrorView::Operands(entries@.len() as usize)
                } else {
                    RuleErrorView::BodyPrim(func)
                }
                &&& r is Ok ==> final(self)@ == after_call(
                    old(self)@,
                    BuilderCall::Query(
                        BodyOp::Differ(
                            slots_of_entries(entries@)[0],
                            slots_of_entries(entries@)[1],
                        ),
                    ),
                )
            }),
    {
        let inequality = match eg.prim_name(func) {
            Some(n) => str_eq(n, "!=") || str_eq(n, "bool-!=") || str_eq(n, "value-!="),
            None => false,
        };
        if !inequality {
            return Err(RuleError::BodyPrim(func));
        }
        let n: usize = entries.len();
        if n < 2 {
            return Err(RuleError::Operands(n));
        }
        let l = Slot::from_entry(&entries[0]);
        let r = Slot::from_entry(&entries[1]);
        assert(slots_of_entries(entries@)[0] == l);
        assert(slots_of_entries(entries@)[1] == r);
        self.ir.body.push(BodyOp::Differ(l, r));
        Ok(())
    }

    /// Notes the first thing that the rule cannot hold.
    fn defer(&mut self, e: RuleError)
        ensures
            final(self)@ == (BuilderView {
                deferred: first_error(old(self)@.deferred, e@),
                ..old(self)@
            }),
    {
        if self.deferred.is_none() {
            self.deferred = Some(e);
        }
    }

    /// A head's call of a primitive, which the rule cannot hold.
    pub fn call_external_func(&mut self, _func: ExternalFunctionId, ret_ty: ColumnTy) -> (e:
        QueryEntry)
        ensures
            e == (QueryEntry::Const { val: Value { rep: 0 }, ty: ret_ty }),
            final(self)@ == after_call(old(self)@, BuilderCall::Refused(RuleErrorView::HeadCall)),
    {
        self.defer(RuleError::HeadCall);
        QueryEntry::Const { val: Value::new(0), ty: ret_ty }
    }

    /// A head's lookup of a function, which the rule cannot hold.
    pub fn lookup(&mut self, _func: FunctionId) -> (e: QueryEntry)
        ensures
            e == (QueryEntry::Const { val: Value { rep: 0 }, ty: ColumnTy::Id }),
            final(self)@ == after_call(old(self)@, BuilderCall::Refused(RuleErrorView::HeadLookup)),
    {
        self.defer(RuleError::HeadLookup);
        QueryEntry::Const { val: Value::new(0), ty: ColumnTy::Id }
    }

    /// A head's subsumption of a row, which the rule cannot hold.
    pub fn subsume(&mut self, _func: FunctionId) -> (r: Result<(), RuleError>)
        ensures
            r matches Err(e) && e@ is HeadSubsume,
            final(self)@ == old(self)@,
    {
        Err(RuleError::HeadSubsume)
    }

    /// Adds the write of a row.
    pub fn set(&mut self, func: FunctionId, entries: &[QueryEntry])
        ensures
            final(self)@.head.len() == old(self)@.head.len() + 1,
            final(self)@ == after_call(
                old(self)@,
                BuilderCall::Action(final(self)@.head.last()),
            ),
            final(self)@.head.last() matches HeadOp::SetRow { func: f, slots } && f == func
                && slots@ == slots_of_entries(entries@),
    {
        self.ir.head.push(HeadOp::SetRow { func, slots: slots_from_entries(entries) });
    }

    /// Adds the retraction of the rows that begin with the entries.
    pub fn remove(&mut self, func: FunctionId, entries: &[QueryEntry])
        ensures
            final(self)@.head.len() == old(self)@.head.len() + 1,
            final(self)@ == after_call(
                old(self)@,
                BuilderCall::Action(final(self)@.head.last()),
            ),
            final(self)@.head.last() matches HeadOp::Remove { func: f, slots } && f == func
                && slots@ == slots_of_entries(entries@),
    {
        self.ir.head.push(HeadOp::Remove { func, slots: slots_from_entries(entries) });
    }

    /// A head's union of two ids, which the rule cannot hold.
    pub fn union(&mut self, _l: &QueryEntry, _r: &QueryEntry)
        ensures
            final(self)@ == after_call(old(self)@, BuilderCall::Refused(RuleErrorView::HeadUnion)),
    {
        self.defer(RuleError::HeadUnion);
    }

    /// A head that fails, which the rule cannot hold.
    pub fn panic(&mut self, message: String)
        ensures
            final(self)@ == after_call(old(self)@, BuilderCall::Refused(RuleErrorView::HeadPanic(message@))),
    {
        self.defer(RuleError::HeadPanic(message));
    }

    /// Registers the rule, unless it was asked for something that it cannot hold.
    pub fn build(self, eg: &mut EGraph) -> (r: Result<RuleId, RuleError>)
        requires
            old(eg).wf(),
            old(eg)@.rules.len() <= u32::MAX,
        ensures
            final(eg).wf(),
            built(
                old(eg)@,
                self@,
                final(eg)@,
                match r {
                    Ok(id) => Ok(id),
                    Err(e) => Err(e@),
                },
            ),
    {
        match self.deferred {
            Some(e) => Err(e),
            None => Ok(eg.add_rule(self.ir)),
        }
    }
}

/// The name of a primitive.
pub open spec fn prim_name_of(s: EgState, id: ExternalFunctionId) -> Option<Seq<char>> {
    if id.rep < s.names.len() {
        s.names[id.rep as int]
    } else {
        None
    }
}

/// What a call to run rules comes to.
#[derive(Debug)]
pub enum RunPlan {
    /// Nothing is to be done.
    Nothing,
    /// The rebuild circuit runs to its fixpoint.
    Rebuild(RebuildRoles),
    /// One round of the rules at these indices.
    Round(Vec<usize>),
}

/// The indices of rules that are not freed.
pub open spec fn live_indices(s: EgState, rules: Seq<RuleId>) -> Seq<usize>
    decreases rules.len(),
{
    if rules.len() == 0 {
        Seq::empty()
    } else {
        let front = live_indices(s, rules.drop_last());
        let i = rules.last().rep;
        if i < s.rules.len() && s.rules[i as int] is Some {
            front.push(i as usize)
        } else {
            front
        }
    }
}

/// Whether every registered rule fits the functions it names.
pub open spec fn all_rules_fit(s: EgState) -> bool {
    forall|i: int|
        0 <= i < s.rules.len() ==> ((#[trigger] s.rules[i]) matches Some(rule) ==> rule_fits(
            s,
            rule,
        ))
}

impl EGraph {
    /// What a call to run rules comes to: the rebuild circuit, where it is on and they are all
    /// rebuild rules that it can run; else one round of those that are not freed.
    pub fn run_rules(&self, rules: &Vec<RuleId>) -> (p: RunPlan)
        requires
            self.wf(),
            all_rules_fit(self@),
        ensures
            ({
                let live = live_indices(self@, rules@);
                let rebuild = self@.circuit_rebuild && all_rebuild(self@, live) && names_a_table(
                    self@,
                    live,
                ) && !some_wide_view(self@);
                &&& p is Nothing <==> live.len() == 0
                &&& p is Rebuild <==> live.len() > 0 && rebuild
                &&& p matches RunPlan::Rebuild(roles) ==> roles_are(self@, &roles)
                &&& p matches RunPlan::Round(idxs) ==> idxs@ == live
            }),
    {
        let mut live: Vec<usize> = Vec::new();
        let n: usize = rules.len();
        for k in 0..n
            invariant
                n == rules@.len(),
                live@ == live_indices(self@, rules@.take(k as int)),
        {
            assert(rules@.take(k + 1).drop_last() =~= rules@.take(k as int));
            assert(rules@.take(k + 1).last() == rules@[k as int]);
            let i: usize = rules[k].rep as usize;
            if self.rule(i).is_some() {
                live.push(i);
            }
        }
        assert(rules@.take(n as int) =~= rules@);
        if live.len() == 0 {
            return RunPlan::Nothing;
        }
        if self.circuit_rebuild_enabled() {
            match recognize(self, &live) {
                Some(roles) => {
                    return RunPlan::Rebuild(roles);
                },
                None => {},
            }
        }
        RunPlan::Round(live)
    }

    /// Whether an action fits the function it names.
    fn action_fits(&self, op: &HeadOp) -> (b: bool)
        requires
            self.wf(),
        ensures
            b == op_fits(self@, *op),
    {
        match op {
            HeadOp::SetRow { func, slots } => (func.rep as usize) < self.table_count() && slots.len()
                == self.info(*func).arity,
            HeadOp::Remove { func, slots } => (func.rep as usize) < self.table_count()
                && slots.len() <= self.info(*func).arity,
            HeadOp::Subsume { func, slots } => true,
            HeadOp::Lookup { func, args, ret: _ } => (func.rep as usize) < self.table_count()
                && self.info(*func).arity >= 1 && args.len() == self.info(*func).arity - 1,
            HeadOp::Call { id, args, ret: _ } => self.canon_table(*id).is_none() || args.len() > 0,
            HeadOp::Union { l: _, r: _ } => true,
            HeadOp::Panic(_) => true,
        }
    }

    /// Whether the atoms and actions of a rule fit the functions they name.
    pub fn rule_is_fit(&self, rule: &RuleIr) -> (b: bool)
        requires
            self.wf(),
        ensures
            b == rule_fits(self@, *rule),
    {
        let n: usize = rule.head.len();
        for i in 0..n
            invariant
                n == rule.head@.len(),
                self.wf(),
                forall|k: int| 0 <= k < i ==> op_fits(self@, #[trigger] rule.head@[k]),
        {
            if !self.action_fits(&rule.head[i]) {
                return false;
            }
        }
        let m: usize = rule.body.len();
        for i in 0..m
            invariant
                m == rule.body@.len(),
                self.wf(),
                forall|k: int|
                    0 <= k < i ==> match #[trigger] rule.body@[k] {
                        BodyOp::Atom(a) => a.func.rep < self@.tables.len() && a.slots@.len()
                            <= self@.tables[a.func.rep as int].info.arity,
                        BodyOp::Prim { id, args, ret } => self@.canon.contains_key(id.rep)
                            ==> args@.len() > 0,
                        BodyOp::Differ(_, _) => true,
                    },
        {
            let fits = match &rule.body[i] {
                BodyOp::Atom(a) => (a.func.rep as usize) < self.table_count() && a.slots.len()
                    <= self.info(a.func).arity,
                BodyOp::Prim { id, args, ret: _ } => self.canon_table(*id).is_none() || args.len()
                    > 0,
                BodyOp::Differ(_, _) => true,
            };
            if !fits {
                return false;
            }
        }
        true
    }

    /// Whether every registered rule fits the functions it names.
    pub fn rules_are_fit(&self) -> (b: bool)
        requires
            self.wf(),
        ensures
            b == all_rules_fit(self@),
    {
        let n: usize = self.rule_count();
        for i in 0..n
            invariant
                n == self@.rules.len(),
                self.wf(),
                forall|k: int|
                    0 <= k < i ==> ((#[trigger] self@.rules[k]) matches Some(rule) ==> rule_fits(
                        self@,
                        rule,
                    )),
        {
            match self.rule(i) {
                Some(rule) => {
                    if !self.rule_is_fit(&rule) {
                        assert(self@.rules[i as int] == Some(*rule));
                        return false;
                    }
                },
                None => {},
            }
        }
        true
    }
}

} // verus!
