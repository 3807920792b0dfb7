//! Rule heads: what the actions of a rule do under a binding.
use crate::backend::{ExternalFunctionId, FunctionId};
use crate::collections::{row_views, Env, KeyMap};
use crate::feldera::compile::{slot_val, slots_vals, HeadOp, Row, Slot};
use crate::feldera::egraph::{same_infos, with_term, with_union, EGraph, EgState};
use crate::feldera::join::may_answer;
use crate::feldera::table::{clone_prefix, TableState};
use vstd::prelude::*;

verus! {

/// A write that is applied once all matches are known.
#[derive(Debug)]
pub enum Write {
    /// Add a row.
    Put(FunctionId, Row),
    /// Retract the rows whose leading columns are the key.
    Drop(FunctionId, Row),
}

/// A write, as a value.
pub enum WriteView {
    Put(u32, Seq<u32>),
    Drop(u32, Seq<u32>),
}

impl Write {
    pub open spec fn view(&self) -> WriteView {
        match self {
            Write::Put(f, row) => WriteView::Put(f.rep, row@),
            Write::Drop(f, key) => WriteView::Drop(f.rep, key@),
        }
    }
}

/// Writes, as values.
pub open spec fn write_views(ws: Seq<Write>) -> Seq<WriteView> {
    ws.map_values(|w: Write| w.view())
}

/// Why a head failed.
#[derive(Debug)]
pub enum HeadError {
    /// A variable has no value.
    Unbound(u32),
    /// A panic action ran.
    Panic(String),
    /// There is no id left.
    OutOfIds,
}

/// Why a head failed, as a value.
pub enum HeadErrorView {
    Unbound(u32),
    Panic(Seq<char>),
    OutOfIds,
}

impl HeadError {
    pub open spec fn view(&self) -> HeadErrorView {
        match self {
            HeadError::Unbound(v) => HeadErrorView::Unbound(*v),
            HeadError::Panic(m) => HeadErrorView::Panic(m@),
            HeadError::OutOfIds => HeadErrorView::OutOfIds,
        }
    }
}

/// A failure that may have happened, as a value.
pub open spec fn error_view(e: Option<HeadError>) -> Option<HeadErrorView> {
    match e {
        Some(x) => Some(x.view()),
        None => None,
    }
}

/// The failure of a result, as a value.
pub open spec fn failure<A>(r: Result<A, HeadError>) -> Option<HeadErrorView> {
    match r {
        Ok(_) => None,
        Err(e) => Some(e.view()),
    }
}

/// Whether a head's actions fit the functions they name.
pub open spec fn op_fits(s: EgState, op: HeadOp) -> bool {
    match op {
        HeadOp::SetRow { func, slots } => func.rep < s.tables.len() && slots@.len()
            == s.tables[func.rep as int].info.arity,
        HeadOp::Remove { func, slots } => func.rep < s.tables.len() && slots@.len()
            <= s.tables[func.rep as int].info.arity,
        HeadOp::Lookup { func, args, ret } => func.rep < s.tables.len() && args@.len() + 1
            == s.tables[func.rep as int].info.arity,
        HeadOp::Call { id, args, ret } => s.canon.contains_key(id.rep) ==> args@.len() > 0,
        _ => true,
    }
}

/// Whether all actions of a head fit the functions they name.
pub open spec fn head_fits(s: EgState, head: Seq<HeadOp>) -> bool {
    forall|i: int| 0 <= i < head.len() ==> op_fits(s, #[trigger] head[i])
}

/// The first variable of the slots that has no value, if any.
pub open spec fn first_unbound(slots: Seq<Slot>, env: Map<u32, u32>) -> Option<u32>
    decreases slots.len(),
{
    if slots.len() == 0 {
        None
    } else {
        match first_unbound(slots.drop_last(), env) {
            Some(v) => Some(v),
            None => match slots.last() {
                Slot::Var(v) => if env.contains_key(v) {
                    None
                } else {
                    Some(v)
                },
                Slot::Const(_) => None,
            },
        }
    }
}

/// A head run: the state it led to, the bindings, and the failure that stopped it.
pub struct HeadRun {
    pub eg: EgState,
    pub writes: Seq<WriteView>,
    pub env: Map<u32, u32>,
    pub err: Option<HeadErrorView>,
}

/// Whether a function has a row with the key.
pub open spec fn has_key(s: EgState, f: FunctionId, key: Seq<u32>) -> bool {
    exists|v: u32| #[trigger] s.tables[f.rep as int].rows.contains(key.push(v))
}

/// What one action does. `reply` is the output that a lookup found, or the result
/// of a primitive.
pub open spec fn head_step(run: HeadRun, op: HeadOp, reply: Option<u32>) -> HeadRun {
    let s = run.eg;
    match op {
        HeadOp::SetRow { func, slots } => match first_unbound(slots@, run.env) {
            Some(v) => HeadRun { err: Some(HeadErrorView::Unbound(v)), ..run },
            None => {
                let row = slots_vals(slots@, run.env);
                if s.tables[func.rep as int].uf is Some {
                    HeadRun { eg: with_union(s, func.rep as int, row[0], row[1]), ..run }
                } else {
                    HeadRun { writes: run.writes.push(WriteView::Put(func.rep, row)), ..run }
                }
            },
        },
        HeadOp::Remove { func, slots } => match first_unbound(slots@, run.env) {
            Some(v) => HeadRun { err: Some(HeadErrorView::Unbound(v)), ..run },
            None => HeadRun {
                writes: run.writes.push(
                    WriteView::Drop(func.rep, slots_vals(slots@, run.env)),
                ),
                ..run
            },
        },
        HeadOp::Subsume { func, slots } => run,
        HeadOp::Lookup { func, args, ret } => match first_unbound(args@, run.env) {
            Some(v) => HeadRun { err: Some(HeadErrorView::Unbound(v)), ..run },
            None => {
                let key = slots_vals(args@, run.env);
                if has_key(s, func, key) {
                    HeadRun { env: run.env.insert(ret, reply->0), ..run }
                } else if s.tables[func.rep as int].info.identity_on_miss {
                    HeadRun { env: run.env.insert(ret, key[0]), ..run }
                } else if s.next_id == u32::MAX {
                    HeadRun { err: Some(HeadErrorView::OutOfIds), ..run }
                } else {
                    HeadRun {
                        eg: with_term(s, func.rep as int, key),
                        env: run.env.insert(ret, s.next_id),
                        ..run
                    }
                }
            },
        },
        HeadOp::Call { id, args, ret } => match first_unbound(args@, run.env) {
            Some(v) => HeadRun { err: Some(HeadErrorView::Unbound(v)), ..run },
            None => {
                let argv = slots_vals(args@, run.env);
                if s.canon.contains_key(id.rep) {
                    HeadRun {
                        env: run.env.insert(ret, s.find(s.canon[id.rep] as int, argv[0])),
                        ..run
                    }
                } else {
                    match reply {
                        Some(v) => HeadRun { env: run.env.insert(ret, v), ..run },
                        None => run,
                    }
                }
            },
        },
        HeadOp::Union { l, r } => run,
        HeadOp::Panic(m) => HeadRun { err: Some(HeadErrorView::Panic(m@)), ..run },
    }
}

/// Whether `reply` is what the action got: an output of the row that was looked
/// up, or an answer of the primitive.
pub open spec fn reply_ok<F: Fn(ExternalFunctionId, &Vec<u32>) -> Option<u32>>(
    prim: F,
    run: HeadRun,
    op: HeadOp,
    reply: Option<u32>,
) -> bool {
    match op {
        HeadOp::Lookup { func, args, ret } => {
            let key = slots_vals(args@, run.env);
            first_unbound(args@, run.env) is None && has_key(run.eg, func, key) ==> reply is Some
                && run.eg.tables[func.rep as int].rows.contains(key.push(reply->0))
        },
        HeadOp::Call { id, args, ret } => first_unbound(args@, run.env) is None
            && !run.eg.canon.contains_key(id.rep) ==> may_answer(
            prim,
            id,
            slots_vals(args@, run.env),
            reply,
        ),
        _ => true,
    }
}

/// A head after its first `n` actions; a failed one stays where it failed.
pub open spec fn head_after(run: HeadRun, head: Seq<HeadOp>, replies: Seq<Option<u32>>, n: int) -> HeadRun
    decreases n,
{
    if n <= 0 {
        run
    } else {
        let before = head_after(run, head, replies, n - 1);
        if before.err is Some {
            before
        } else {
            head_step(before, head[n - 1], replies[n - 1])
        }
    }
}

/// Whether the replies are what the first `n` actions of a head got.
pub open spec fn replies_ok<F: Fn(ExternalFunctionId, &Vec<u32>) -> Option<u32>>(
    prim: F,
    run: HeadRun,
    head: Seq<HeadOp>,
    replies: Seq<Option<u32>>,
    n: int,
) -> bool {
    forall|i: int|
        0 <= i < n && head_after(run, head, replies, i).err is None ==> reply_ok(
            prim,
            head_after(run, head, replies, i),
            head[i],
            #[trigger] replies[i],
        )
}

/// Whether running a head may lead from one run to another.
pub open spec fn head_leads<F: Fn(ExternalFunctionId, &Vec<u32>) -> Option<u32>>(
    prim: F,
    run: HeadRun,
    head: Seq<HeadOp>,
    out: HeadRun,
) -> bool {
    exists|replies: Seq<Option<u32>>|
        #![trigger head_after(run, head, replies, head.len() as int)]
        replies_ok(prim, run, head, replies, head.len() as int)
            && out == head_after(run, head, replies, head.len() as int)
}

/// A head without failing slots binds and writes what its replies say, whatever
/// else they hold: actions before the `n`-th do not see later replies.
proof fn lemma_head_after_prefix(
    run: HeadRun,
    head: Seq<HeadOp>,
    a: Seq<Option<u32>>,
    b: Seq<Option<u32>>,
    n: int,
)
    requires
        0 <= n <= a.len(),
        n <= b.len(),
        a.take(n) == b.take(n),
    ensures
        head_after(run, head, a, n) == head_after(run, head, b, n),
    decreases n,
{
    if n > 0 {
        assert(a.take(n - 1) =~= a.take(n).take(n - 1));
        assert(b.take(n - 1) =~= b.take(n).take(n - 1));
        lemma_head_after_prefix(run, head, a, b, n - 1);
        assert(a.take(n)[n - 1] == a[n - 1]);
        assert(b.take(n)[n - 1] == b[n - 1]);
    }
}

/// The outputs of functions by key, for the functions that a head has looked up.
#[derive(Debug)]
pub struct LookupIndex {
    maps: Vec<Option<KeyMap>>,
}

/// Whether `m` gives each key of the rows an output of a row with that key.
pub open spec fn indexes(m: Map<Seq<u32>, u32>, rows: Set<Seq<u32>>) -> bool {
    &&& forall|k: Seq<u32>| #[trigger] m.contains_key(k) ==> rows.contains(k.push(m[k]))
    &&& forall|k: Seq<u32>, v: u32| #[trigger] rows.contains(k.push(v)) ==> m.contains_key(k)
}

impl LookupIndex {
    pub closed spec fn ok(&self, s: EgState) -> bool {
        &&& self.maps@.len() == s.tables.len()
        &&& forall|f: int|
            0 <= f < self.maps@.len() ==> ((#[trigger] self.maps@[f]) matches Some(m) ==> indexes(
                m@,
                s.tables[f].rows,
            ))
    }

    /// An index that nothing was looked up in.
    pub fn new(eg: &EGraph) -> (i: LookupIndex)
        ensures
            i.ok(eg@),
    {
        let n: usize = eg.table_count();
        let mut maps: Vec<Option<KeyMap>> = Vec::with_capacity(n);
        for k in 0..n
            invariant
                maps@.len() == k,
                forall|f: int| 0 <= f < k ==> (#[trigger] maps@[f]) is None,
        {
            maps.push(None);
        }
        LookupIndex { maps }
    }

    /// What a change outside the rows leaves of an index.
    pub proof fn lemma_same_rows(&self, a: EgState, b: EgState)
        requires
            self.ok(a),
            a.tables.len() == b.tables.len(),
            forall|f: int|
                0 <= f < a.tables.len() ==> (#[trigger] a.tables[f]).rows == b.tables[f].rows,
        ensures
            self.ok(b),
    {
        assert forall|f: int| 0 <= f < self.maps@.len() implies ((
        #[trigger] self.maps@[f]) matches Some(m) ==> indexes(m@, b.tables[f].rows)) by {
            assert(a.tables[f].rows == b.tables[f].rows);
        }
    }

    /// The output that a key has, if any.
    fn lookup(&mut self, eg: &EGraph, f: usize, key: &Row) -> (r: Option<u32>)
        requires
            eg.wf(),
            old(self).ok(eg@),
            f < eg@.tables.len(),
            eg@.tables[f as int].info.arity > 0,
        ensures
            final(self).ok(eg@),
            final(self).maps@[f as int] is Some,
            r is Some <==> exists|v: u32| #[trigger]
                eg@.tables[f as int].rows.contains(key@.push(v)),
            r matches Some(v) ==> eg@.tables[f as int].rows.contains(key@.push(v)),
    {
        proof {
            eg.lemma_wf();
            assert(crate::feldera::egraph::table_ok(eg@.tables[f as int]));
        }
        if self.maps[f].is_none() {
            let m = build_index(eg, f);
            self.maps[f] = Some(m);
        }
        let ghost rows = eg@.tables[f as int].rows;
        match &self.maps[f] {
            Some(m) => {
                assert(indexes(m@, rows));
                let r = m.get(key);
                proof {
                    if r is None {
                        assert forall|v: u32| !(#[trigger] rows.contains(key@.push(v))) by {}
                    }
                }
                r
            },
            None => None,
        }
    }

    /// Records the row of a new term.
    fn add_key(&mut self, f: usize, key: Row, out: u32, Ghost(s): Ghost<EgState>)
        requires
            old(self).ok(s),
            f < s.tables.len(),
            old(self).maps@[f as int] is Some,
        ensures
            final(self).ok(s.with_rows(f as int, s.tables[f as int].rows.insert(key@.push(out)))),
    {
        let ghost rows = s.tables[f as int].rows;
        let ghost rows2 = rows.insert(key@.push(out));
        let ghost s2 = s.with_rows(f as int, rows2);
        if let Some(m) = &mut self.maps[f] {
            let ghost m0 = m@;
            m.insert(key, out);
            proof {
                assert forall|k: Seq<u32>, v: u32| #[trigger]
                    rows2.contains(k.push(v)) implies m@.contains_key(k) by {
                    if k.push(v) == key@.push(out) {
                        assert(k =~= k.push(v).drop_last());
                        assert(key@ =~= key@.push(out).drop_last());
                    } else {
                        assert(rows.contains(k.push(v)));
                    }
                }
                assert forall|k: Seq<u32>| #[trigger] m@.contains_key(k) implies rows2.contains(
                    k.push(m@[k]),
                ) by {
                    if k != key@ {
                        assert(m0.contains_key(k));
                    }
                }
                assert(indexes(m@, rows2));
            }
        }
        assert forall|g: int| 0 <= g < self.maps@.len() implies ((
        #[trigger] self.maps@[g]) matches Some(m) ==> indexes(m@, s2.tables[g].rows)) by {
            if g != f {
                assert(old(self).maps@[g] == self.maps@[g]);
            }
        }
    }
}

/// The outputs of a function by key.
fn build_index(eg: &EGraph, f: usize) -> (m: KeyMap)
    requires
        eg.wf(),
        f < eg@.tables.len(),
        eg@.tables[f as int].info.arity > 0,
    ensures
        indexes(m@, eg@.tables[f as int].rows),
{
    let t = eg.table(f);
    let inputs: usize = t.arity() - 1;
    let rows = t.rows();
    let ghost rs = eg@.tables[f as int].rows;
    let ghost rv = row_views(rows@);
    let mut m = KeyMap::new();
    proof {
        eg.lemma_wf();
        assert(crate::feldera::egraph::table_ok(eg@.tables[f as int]));
        assert forall|k: int| 0 <= k < rows@.len() implies (#[trigger] rows@[k])@.len() == inputs + 1
            && rs.contains(rows@[k]@) by {
            assert(rv[k] == rows@[k]@);
            assert(rv.to_set().contains(rv[k]));
        }
    }
    for j in 0..rows.len()
        invariant
            rs == eg@.tables[f as int].rows,
            forall|k: int|
                0 <= k < rows@.len() ==> (#[trigger] rows@[k])@.len() == inputs + 1 && rs.contains(
                    rows@[k]@,
                ),
            forall|k: Seq<u32>| #[trigger] m@.contains_key(k) ==> rs.contains(k.push(m@[k])),
            forall|k: int|
                0 <= k < j ==> m@.contains_key((#[trigger] rows@[k])@.take(inputs as int)),
    {
        let row = &rows[j];
        let key = clone_prefix(row, inputs);
        assert(row@ =~= key@.push(row@[inputs as int]));
        m.insert(key, row[inputs]);
    }
    proof {
        assert forall|k: Seq<u32>, v: u32| #[trigger] rs.contains(k.push(v)) implies m@.contains_key(
            k,
        ) by {
            assert(rv.to_set().contains(k.push(v)));
            let q = choose|q: int| 0 <= q < rv.len() && rv[q] == k.push(v);
            assert(rows@[q]@ == k.push(v));
            assert(rows@[q]@.take(inputs as int) =~= k);
        }
    }
    m
}

/// The value of a slot, or the variable that has none.
pub fn resolve(s: &Slot, env: &Env) -> (r: Result<u32, u32>)
    ensures
        match slot_val(*s, env@) {
            Some(v) => r == Ok::<u32, u32>(v),
            None => *s matches Slot::Var(x) && r == Err::<u32, u32>(x),
        },
{
    match s {
        Slot::Const(c) => Ok(*c),
        Slot::Var(v) => match env.get(*v) {
            Some(x) => Ok(x),
            None => Err(*v),
        },
    }
}

proof fn lemma_first_unbound(slots: Seq<Slot>, env: Map<u32, u32>, n: int)
    requires
        0 <= n <= slots.len(),
        first_unbound(slots.take(n), env) is Some,
    ensures
        first_unbound(slots, env) == first_unbound(slots.take(n), env),
    decreases slots.len() - n,
{
    if n == slots.len() {
        assert(slots.take(n) =~= slots);
    } else {
        assert(slots.take(n + 1).drop_last() =~= slots.take(n));
        lemma_first_unbound(slots, env, n + 1);
    }
}

/// The values of slots, or the first variable that has none.
pub fn build_row(slots: &Vec<Slot>, env: &Env) -> (r: Result<Row, u32>)
    ensures
        match first_unbound(slots@, env@) {
            Some(v) => r == Err::<Row, u32>(v),
            None => r matches Ok(row) && row@ == slots_vals(slots@, env@),
        },
{
    let mut row: Vec<u32> = Vec::with_capacity(slots.len());
    let ghost want = slots_vals(slots@, env@);
    assert(slots@.take(0) =~= Seq::empty());
    for i in 0..slots.len()
        invariant
            want == slots_vals(slots@, env@),
            first_unbound(slots@.take(i as int), env@) is None,
            row@ =~= want.take(i as int),
    {
        assert(slots@.take(i + 1).drop_last() =~= slots@.take(i as int));
        assert(slots@.take(i + 1).last() == slots@[i as int]);
        match resolve(&slots[i], env) {
            Ok(v) => {
                row.push(v);
                assert(want[i as int] == v);
            },
            Err(v) => {
                proof {
                    lemma_first_unbound(slots@, env@, i + 1);
                }
                return Err(v);
            },
        }
    }
    assert(slots@.take(slots@.len() as int) =~= slots@);
    assert(want.take(slots@.len() as int) =~= want);
    Ok(row)
}

/// Whether a lookup may answer `r` and lead to `after`.
pub open spec fn lookup_leads(
    s: EgState,
    func: FunctionId,
    key: Seq<u32>,
    r: Result<u32, HeadError>,
    after: EgState,
) -> bool {
    let t = s.tables[func.rep as int];
    if has_key(s, func, key) {
        &&& r is Ok
        &&& t.rows.contains(key.push(r->Ok_0))
        &&& after == s
    } else if t.info.identity_on_miss {
        &&& r == Ok::<u32, HeadError>(key[0])
        &&& after == s
    } else if s.next_id == u32::MAX {
        &&& r == Err::<u32, HeadError>(HeadError::OutOfIds)
        &&& after == s
    } else {
        &&& r == Ok::<u32, HeadError>(s.next_id)
        &&& after == with_term(s, func.rep as int, key)
    }
}

/// The output of a function at a key, whose row is made if there is none. A
/// function that answers identity on a miss makes no row.
pub fn lookup_or_create(
    eg: &mut EGraph,
    func: FunctionId,
    key: Row,
    index: &mut LookupIndex,
) -> (r: Result<u32, HeadError>)
    requires
        old(eg).wf(),
        old(index).ok(old(eg)@),
        func.rep < old(eg)@.tables.len(),
        key@.len() + 1 == old(eg)@.tables[func.rep as int].info.arity,
    ensures
        final(eg).wf(),
        final(index).ok(final(eg)@),
        final(eg).runs() == old(eg).runs(),
        lookup_leads(old(eg)@, func, key@, r, final(eg)@),
{
    let f: usize = func.rep as usize;
    proof {
        eg.lemma_wf();
        assert(crate::feldera::egraph::table_ok(eg@.tables[f as int]));
    }
    match index.lookup(eg, f, &key) {
        Some(v) => Ok(v),
        None => {
            if eg.info(func).identity_on_miss {
                return Ok(key[0]);
            }
            if eg.next_id() == u32::MAX {
                return Err(HeadError::OutOfIds);
            }
            let ghost s0 = eg@;
            let id = eg.fresh_id();
            let mut full: Vec<u32> = Vec::with_capacity(key.len() + 1);
            for i in 0..key.len()
                invariant
                    full@ =~= key@.take(i as int),
            {
                full.push(key[i]);
            }
            assert(key@.take(key@.len() as int) =~= key@);
            full.push(id.rep);
            let ghost mid = eg@;
            eg.insert_row(f, full);
            proof {
                index.lemma_same_rows(s0, mid);
                assert(eg@ =~= with_term(s0, f as int, key@));
            }
            index.add_key(f, key, id.rep, Ghost(mid));
            Ok(id.rep)
        },
    }
}

/// Whether one action may lead from one run to another.
pub open spec fn op_leads<F: Fn(ExternalFunctionId, &Vec<u32>) -> Option<u32>>(
    prim: F,
    run: HeadRun,
    op: HeadOp,
    out: HeadRun,
) -> bool {
    exists|reply: Option<u32>|
        #![trigger head_step(run, op, reply)]
        reply_ok(prim, run, op, reply) && out == head_step(run, op, reply)
}

/// Runs one action of a head, and returns its failure.
fn apply_op<F: Fn(ExternalFunctionId, &Vec<u32>) -> Option<u32>>(
    eg: &mut EGraph,
    op: &HeadOp,
    env: &mut Env,
    writes: &mut Vec<Write>,
    index: &mut LookupIndex,
    prim: &F,
) -> (failed: Option<HeadError>)
    requires
        old(eg).wf(),
        old(index).ok(old(eg)@),
        op_fits(old(eg)@, *op),
        forall|id: ExternalFunctionId, v: Vec<u32>| #[trigger] call_requires(*prim, (id, &v)),
    ensures
        final(eg).wf(),
        final(index).ok(final(eg)@),
        same_infos(final(eg)@, old(eg)@),
        final(eg)@.canon == old(eg)@.canon,
        final(eg).runs() == old(eg).runs(),
        op_leads(
            *prim,
            HeadRun {
                eg: old(eg)@,
                writes: write_views(old(writes)@),
                env: old(env)@,
                err: None,
            },
            *op,
            HeadRun {
                eg: final(eg)@,
                writes: write_views(final(writes)@),
                env: final(env)@,
                err: error_view(failed),
            },
        ),
{
    let ghost before = HeadRun {
        eg: eg@,
        writes: write_views(writes@),
        env: env@,
        err: None,
    };
    proof {
        eg.lemma_wf();
    }
    match op {
        HeadOp::SetRow { func, slots } => match build_row(slots, env) {
            Err(v) => {
                assert(reply_ok(*prim, before, *op, None));
                Some(HeadError::Unbound(v))
            },
            Ok(row) => {
                if eg.has_uf(*func) {
                    proof {
                        assert(crate::feldera::egraph::table_ok(eg@.tables[func.rep as int]));
                    }
                    let ghost s0 = eg@;
                    eg.enqueue_union(*func, row[0], row[1]);
                    proof {
                        index.lemma_same_rows(s0, eg@);
                    }
                } else {
                    let ghost w0 = writes@;
                    writes.push(Write::Put(*func, row));
                    assert(write_views(writes@) =~= write_views(w0).push(
                        WriteView::Put(func.rep, row@),
                    ));
                }
                assert(reply_ok(*prim, before, *op, None));
                assert(head_step(before, *op, None).eg == eg@);
                None
            },
        },
        HeadOp::Remove { func, slots } => match build_row(slots, env) {
            Err(v) => {
                assert(reply_ok(*prim, before, *op, None));
                Some(HeadError::Unbound(v))
            },
            Ok(key) => {
                let ghost w0 = writes@;
                writes.push(Write::Drop(*func, key));
                assert(write_views(writes@) =~= write_views(w0).push(
                    WriteView::Drop(func.rep, key@),
                ));
                assert(reply_ok(*prim, before, *op, None));
                None
            },
        },
        HeadOp::Subsume { .. } => {
            assert(reply_ok(*prim, before, *op, None));
            None
        },
        HeadOp::Lookup { func, args, ret } => match build_row(args, env) {
            Err(v) => {
                assert(reply_ok(*prim, before, *op, None));
                Some(HeadError::Unbound(v))
            },
            Ok(key) => {
                let ghost key_view = key@;
                match lookup_or_create(eg, *func, key, index) {
                    Ok(v) => {
                        env.insert(*ret, v);
                        assert(reply_ok(*prim, before, *op, Some(v)));
                        assert(head_step(before, *op, Some(v)).env == env@);
                        None
                    },
                    Err(e) => {
                        assert(reply_ok(*prim, before, *op, None));
                        assert(head_step(before, *op, None).err == Some(e.view()));
                        Some(e)
                    },
                }
            },
        },
        HeadOp::Call { id, args, ret } => match build_row(args, env) {
            Err(v) => {
                assert(reply_ok(*prim, before, *op, None));
                Some(HeadError::Unbound(v))
            },
            Ok(argv) => {
                match eg.canon_table(*id) {
                    Some(t) => {
                        assert(eg@.canon.contains_key(id.rep));
                        let l: u32 = eg.native_uf_find(FunctionId::new(t as u32), argv[0]);
                        env.insert(*ret, l);
                        assert(reply_ok(*prim, before, *op, None));
                        assert(head_step(before, *op, None).env == env@);
                        None
                    },
                    None => {
                        let result: Option<u32> = prim(*id, &argv);
                        assert(may_answer(*prim, *id, slots_vals(args@, before.env), result));
                        assert(reply_ok(*prim, before, *op, result));
                        if let Some(v) = result {
                            env.insert(*ret, v);
                        }
                        assert(head_step(before, *op, result).env == env@);
                        None
                    },
                }
            },
        },
        HeadOp::Union { .. } => {
            assert(reply_ok(*prim, before, *op, None));
            None
        },
        HeadOp::Panic(m) => {
            assert(reply_ok(*prim, before, *op, None));
            Some(HeadError::Panic(m.clone()))
        },
    }
}

/// Runs the actions of a head under a binding. Table writes are collected; unions
/// are queued, and terms made, at once.
pub fn apply_head<F: Fn(ExternalFunctionId, &Vec<u32>) -> Option<u32>>(
    eg: &mut EGraph,
    head: &Vec<HeadOp>,
    env: &mut Env,
    writes: &mut Vec<Write>,
    index: &mut LookupIndex,
    prim: &F,
) -> (r: Result<(), HeadError>)
    requires
        old(eg).wf(),
        old(index).ok(old(eg)@),
        head_fits(old(eg)@, head@),
        forall|id: ExternalFunctionId, v: Vec<u32>| #[trigger] call_requires(*prim, (id, &v)),
    ensures
        final(eg).wf(),
        final(index).ok(final(eg)@),
        same_infos(final(eg)@, old(eg)@),
        final(eg)@.canon == old(eg)@.canon,
        final(eg).runs() == old(eg).runs(),
        head_leads(
            *prim,
            HeadRun {
                eg: old(eg)@,
                writes: write_views(old(writes)@),
                env: old(env)@,
                err: None,
            },
            head@,
            HeadRun {
                eg: final(eg)@,
                writes: write_views(final(writes)@),
                env: final(env)@,
                err: failure(r),
            },
        ),
{
    let ghost run0 = HeadRun {
        eg: eg@,
        writes: write_views(writes@),
        env: env@,
        err: None,
    };
    let ghost mut replies: Seq<Option<u32>> = Seq::empty();
    let ghost hd = head@;
    for i in 0..head.len()
        invariant
            hd == head@,
            eg.wf(),
            index.ok(eg@),
            head_fits(old(eg)@, hd),
            same_infos(eg@, old(eg)@),
            eg@.canon == old(eg)@.canon,
            eg.runs() == old(eg).runs(),
            forall|id: ExternalFunctionId, v: Vec<u32>| #[trigger] call_requires(*prim, (id, &v)),
            run0 == (HeadRun {
                eg: old(eg)@,
                writes: write_views(old(writes)@),
                env: old(env)@,
                err: None,
            }),
            replies.len() == i,
            replies_ok(*prim, run0, hd, replies, i as int),
            head_after(run0, hd, replies, i as int) == (HeadRun {
                eg: eg@,
                writes: write_views(writes@),
                env: env@,
                err: None,
            }),
    {
        let ghost before = HeadRun {
            eg: eg@,
            writes: write_views(writes@),
            env: env@,
            err: None,
        };
        let ghost replies0 = replies;
        let ghost op = hd[i as int];
        proof {
            assert(op_fits(old(eg)@, op));
            if let HeadOp::Call { id, args, ret } = op {
            }
            assert(op_fits(eg@, op));
        }
        let failed = apply_op(eg, &head[i], env, writes, index, prim);
        let ghost now = HeadRun {
            eg: eg@,
            writes: write_views(writes@),
            env: env@,
            err: error_view(failed),
        };
        proof {
            let reply = choose|reply: Option<u32>|
                #![trigger head_step(before, op, reply)]
                reply_ok(*prim, before, op, reply) && now == head_step(before, op, reply);
            replies = replies0.push(reply);
            lemma_one_more(*prim, run0, hd, replies0, reply, i as int);
        }
        if let Some(e) = failed {
            proof {
                lemma_failed_replies(*prim, run0, hd, replies, i + 1);
            }
            return Err(e);
        }
    }
    Ok(())
}

proof fn lemma_one_more<F: Fn(ExternalFunctionId, &Vec<u32>) -> Option<u32>>(
    prim: F,
    run: HeadRun,
    head: Seq<HeadOp>,
    replies: Seq<Option<u32>>,
    reply: Option<u32>,
    n: int,
)
    requires
        0 <= n < head.len(),
        replies.len() == n,
        replies_ok(prim, run, head, replies, n),
        head_after(run, head, replies, n).err is None,
        reply_ok(prim, head_after(run, head, replies, n), head[n], reply),
    ensures
        replies_ok(prim, run, head, replies.push(reply), n + 1),
        head_after(run, head, replies.push(reply), n + 1) == head_step(
            head_after(run, head, replies, n),
            head[n],
            reply,
        ),
{
    let more = replies.push(reply);
    assert forall|k: int| 0 <= k <= n implies #[trigger] head_after(run, head, more, k)
        == head_after(run, head, replies, k) by {
        assert(more.take(k) =~= replies.take(k));
        lemma_head_after_prefix(run, head, more, replies, k);
    }
    assert(head_after(run, head, more, n) == head_after(run, head, replies, n));
    assert forall|k: int|
        0 <= k < n + 1 && head_after(run, head, more, k).err is None implies reply_ok(
        prim,
        head_after(run, head, more, k),
        head[k],
        #[trigger] more[k],
    ) by {
        if k < n {
            assert(more[k] == replies[k]);
            assert(head_after(run, head, more, k) == head_after(run, head, replies, k));
        }
    }
}

proof fn lemma_failed_replies<F: Fn(ExternalFunctionId, &Vec<u32>) -> Option<u32>>(
    prim: F,
    run: HeadRun,
    head: Seq<HeadOp>,
    replies: Seq<Option<u32>>,
    n: int,
)
    requires
        0 <= n <= head.len(),
        replies_ok(prim, run, head, replies, n),
        head_after(run, head, replies, n).err is Some,
    ensures
        replies_ok(prim, run, head, replies, head.len() as int),
        head_after(run, head, replies, head.len() as int) == head_after(run, head, replies, n),
{
    lemma_failed_stays(run, head, replies, n, head.len() as int);
    assert forall|k: int|
        0 <= k < head.len() && head_after(run, head, replies, k).err is None implies reply_ok(
        prim,
        head_after(run, head, replies, k),
        head[k],
        #[trigger] replies[k],
    ) by {
        if k >= n {
            lemma_failed_stays(run, head, replies, n, k);
        }
    }
}

proof fn lemma_failed_stays(
    run: HeadRun,
    head: Seq<HeadOp>,
    replies: Seq<Option<u32>>,
    n: int,
    m: int,
)
    requires
        0 <= n <= m,
        head_after(run, head, replies, n).err is Some,
    ensures
        head_after(run, head, replies, m) == head_after(run, head, replies, n),
    decreases m - n,
{
    if n < m {
        lemma_failed_stays(run, head, replies, n, m - 1);
    }
}

// ---------------------------------------------------------------------------
// What heads leave alone
// ---------------------------------------------------------------------------

/// Whether a table only gained rows and queued unions.
pub open spec fn table_frame(a: TableState, b: TableState) -> bool {
    &&& b.info == a.info
    &&& b.view_cols == a.view_cols
    &&& b.displaced == a.displaced
    &&& a.rows.subset_of(b.rows)
    &&& (a.uf is Some <==> b.uf is Some)
    &&& (a.uf is Some ==> b.uf->0.find == a.uf->0.find)
}

/// Whether a state only gained rows, ids and queued unions.
pub open spec fn frame(a: EgState, b: EgState) -> bool {
    &&& b == (EgState { tables: b.tables, next_id: b.next_id, ..a })
    &&& a.tables.len() == b.tables.len()
    &&& a.next_id <= b.next_id
    &&& forall|f: int|
        0 <= f < a.tables.len() ==> table_frame(a.tables[f], #[trigger] b.tables[f])
}

/// Whether a write fits the function it names.
pub open spec fn write_fits(s: EgState, w: WriteView) -> bool {
    match w {
        WriteView::Put(f, row) => f < s.tables.len() && row.len() == s.tables[f as int].info.arity,
        WriteView::Drop(f, key) => f < s.tables.len() && key.len()
            <= s.tables[f as int].info.arity,
    }
}

/// Whether all writes fit the functions they name.
pub open spec fn writes_fit(s: EgState, ws: Seq<WriteView>) -> bool {
    forall|i: int| 0 <= i < ws.len() ==> write_fits(s, #[trigger] ws[i])
}

pub proof fn lemma_frame_trans(a: EgState, b: EgState, c: EgState)
    requires
        frame(a, b),
        frame(b, c),
    ensures
        frame(a, c),
{
    assert forall|f: int| 0 <= f < a.tables.len() implies table_frame(
        a.tables[f],
        #[trigger] c.tables[f],
    ) by {
        assert(table_frame(a.tables[f], b.tables[f]));
        assert(table_frame(b.tables[f], c.tables[f]));
    }
}

pub proof fn lemma_frame_refl(a: EgState)
    ensures
        frame(a, a),
{
}

proof fn lemma_step_frame(run: HeadRun, op: HeadOp, reply: Option<u32>)
    requires
        op_fits(run.eg, op),
        writes_fit(run.eg, run.writes),
    ensures
        frame(run.eg, head_step(run, op, reply).eg),
        writes_fit(run.eg, head_step(run, op, reply).writes),
{
    let out = head_step(run, op, reply);
    assert forall|i: int| 0 <= i < out.writes.len() implies write_fits(
        run.eg,
        #[trigger] out.writes[i],
    ) by {
        if i < run.writes.len() {
            assert(out.writes[i] == run.writes[i]);
        }
    }
    assert forall|f: int| 0 <= f < run.eg.tables.len() implies table_frame(
        run.eg.tables[f],
        #[trigger] out.eg.tables[f],
    ) by {}
    assert(out.eg =~= EgState { tables: out.eg.tables, next_id: out.eg.next_id, ..run.eg });
}

proof fn lemma_fits_frame(a: EgState, b: EgState, op: HeadOp)
    requires
        frame(a, b),
        op_fits(a, op),
    ensures
        op_fits(b, op),
{
    match op {
        HeadOp::SetRow { func, slots } => {
            assert(table_frame(a.tables[func.rep as int], b.tables[func.rep as int]));
        },
        HeadOp::Remove { func, slots } => {
            assert(table_frame(a.tables[func.rep as int], b.tables[func.rep as int]));
        },
        HeadOp::Lookup { func, args, ret } => {
            assert(table_frame(a.tables[func.rep as int], b.tables[func.rep as int]));
        },
        _ => {},
    }
}

/// A head that fits keeps fitting once a frame has passed.
pub proof fn lemma_head_fits_frame(a: EgState, b: EgState, head: Seq<HeadOp>)
    requires
        frame(a, b),
        head_fits(a, head),
    ensures
        head_fits(b, head),
{
    assert forall|i: int| 0 <= i < head.len() implies op_fits(b, #[trigger] head[i]) by {
        lemma_fits_frame(a, b, head[i]);
    }
}

/// Writes that fit keep fitting once a frame has passed.
pub proof fn lemma_writes_fit_frame(a: EgState, b: EgState, ws: Seq<WriteView>)
    requires
        frame(a, b),
    ensures
        writes_fit(a, ws) <==> writes_fit(b, ws),
{
    assert forall|f: int| 0 <= f < a.tables.len() implies (#[trigger] b.tables[f]).info
        == a.tables[f].info by {
        assert(table_frame(a.tables[f], b.tables[f]));
    }
    if writes_fit(a, ws) {
        assert forall|i: int| 0 <= i < ws.len() implies write_fits(b, #[trigger] ws[i]) by {
            assert(write_fits(a, ws[i]));
        }
    }
    if writes_fit(b, ws) {
        assert forall|i: int| 0 <= i < ws.len() implies write_fits(a, #[trigger] ws[i]) by {
            assert(write_fits(b, ws[i]));
        }
    }
}

proof fn lemma_head_frame(run: HeadRun, head: Seq<HeadOp>, replies: Seq<Option<u32>>, n: int)
    requires
        0 <= n <= head.len(),
        head_fits(run.eg, head),
        writes_fit(run.eg, run.writes),
    ensures
        frame(run.eg, head_after(run, head, replies, n).eg),
        writes_fit(run.eg, head_after(run, head, replies, n).writes),
    decreases n,
{
    if n > 0 {
        lemma_head_frame(run, head, replies, n - 1);
        let before = head_after(run, head, replies, n - 1);
        if before.err is None {
            lemma_fits_frame(run.eg, before.eg, head[n - 1]);
            lemma_writes_fit_frame(run.eg, before.eg, before.writes);
            lemma_step_frame(before, head[n - 1], replies[n - 1]);
            let out = head_step(before, head[n - 1], replies[n - 1]);
            lemma_frame_trans(run.eg, before.eg, out.eg);
            lemma_writes_fit_frame(run.eg, before.eg, out.writes);
        }
    }
}

/// A head only adds rows, ids and queued unions, and the writes it collects fit.
pub proof fn head_keeps_the_rest<F: Fn(ExternalFunctionId, &Vec<u32>) -> Option<u32>>(
    prim: F,
    run: HeadRun,
    head: Seq<HeadOp>,
    out: HeadRun,
)
    requires
        head_leads(prim, run, head, out),
        head_fits(run.eg, head),
        writes_fit(run.eg, run.writes),
    ensures
        frame(run.eg, out.eg),
        writes_fit(out.eg, out.writes),
{
    let replies = choose|replies: Seq<Option<u32>>|
        #![trigger head_after(run, head, replies, head.len() as int)]
        replies_ok(prim, run, head, replies, head.len() as int) && out == head_after(
            run,
            head,
            replies,
            head.len() as int,
        );
    lemma_head_frame(run, head, replies, head.len() as int);
    lemma_writes_fit_frame(run.eg, out.eg, out.writes);
}

} // verus!
