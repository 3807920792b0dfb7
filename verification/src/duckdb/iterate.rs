//! An iteration: the sync of the union-finds, the choice of how gated variants run, the rules that run.
use crate::duckdb::changed::ChangedIds;
use crate::duckdb::egraph::{at_rest, with_names, EGraph, EgView, NativeUf};
use crate::duckdb::names::{
    is_congruence_rule_name, is_rebuilding_ruleset, is_uf_maintenance_ruleset, stem, uf_maintenance,
};
use crate::duckdb::runner::{wrapped, wrapping, CompiledRule, GateMode, ProgressView};
use crate::duckdb::schema::opt_text;
use crate::duckdb::sql::{insert_changed, insert_changed_sql, unions_after, unions_after_sql};
use crate::duckdb::strmap::{add_name, holds_name, value_or};
use crate::feldera::uf::after_unions;
use crate::text::{str_eq, texts};
use vstd::prelude::*;

verus! {

/// A union and the time at which it came.
pub type UnionRow = (i64, i64, i64);

/// The ids of unions.
pub open spec fn union_pairs(rows: Seq<UnionRow>) -> Seq<(i64, i64)> {
    rows.map_values(|r: UnionRow| (r.0, r.1))
}

/// The newest of a time and the times of unions.
pub open spec fn newest(rows: Seq<UnionRow>, since: i64) -> i64
    decreases rows.len(),
{
    if rows.len() == 0 {
        since
    } else {
        let t = newest(rows.drop_last(), since);
        if rows.last().2 > t {
            rows.last().2
        } else {
            t
        }
    }
}

/// The query for the unions that a union-find has not taken yet; none, where its table has had no
/// row since.
pub open spec fn scan_of(g: EgView, u: NativeUf) -> Option<Seq<char>> {
    if g.pnames.contains_key(u.name@) && value_or(g.progress.watermarks, g.pnames[u.name@], 0)
        > u.last_sync {
        Some(unions_after(g.pnames[u.name@], u.last_sync as int))
    } else {
        None
    }
}

/// A union-find once it has taken unions.
pub open spec fn synced(u: NativeUf, rows: Seq<UnionRow>, u2: NativeUf) -> bool {
    &&& at_rest(u2)
    &&& u2.name == u.name
    &&& u2.table.find() == after_unions(u.table.find(), union_pairs(rows))
    &&& u2.last_sync == newest(rows, u.last_sync)
}

/// Whether an id has another leader.
pub open spec fn moved(u: NativeUf, u2: NativeUf, x: i64) -> bool {
    u.table.find()(x) != u2.table.find()(x)
}

/// Whether an id has another leader in one of the union-finds.
pub open spec fn moved_in(us: Seq<NativeUf>, us2: Seq<NativeUf>, x: i64) -> bool {
    exists|i: int| 0 <= i < us.len() && #[trigger] moved(us[i], us2[i], x)
}

/// The ids that have another leader.
pub open spec fn moved_ids(u: NativeUf, u2: NativeUf) -> Set<i64> {
    Set::new(|x: i64| moved(u, u2, x))
}

/// How many ids have another leader in the first `n` union-finds, those of each counted.
pub open spec fn moved_total(us: Seq<NativeUf>, us2: Seq<NativeUf>, n: nat) -> nat
    decreases n,
{
    if n == 0 {
        0
    } else {
        moved_total(us, us2, (n - 1) as nat) + moved_ids(us[n - 1], us2[n - 1]).len()
    }
}

proof fn lemma_moved_total(us: Seq<NativeUf>, a: Seq<NativeUf>, b: Seq<NativeUf>, n: nat)
    requires
        forall|k: int| 0 <= k < n ==> a[k] == #[trigger] b[k],
    ensures
        moved_total(us, a, n) == moved_total(us, b, n),
    decreases n,
{
    if n > 0 {
        lemma_moved_total(us, a, b, (n - 1) as nat);
        assert(a[n - 1] == b[n - 1]);
    }
}

/// How many unions there are.
pub open spec fn row_total(rows: Seq<Option<Vec<UnionRow>>>) -> int
    decreases rows.len(),
{
    if rows.len() == 0 {
        0
    } else {
        row_total(rows.drop_last()) + match rows.last() {
            Some(r) => r@.len() as int,
            None => 0,
        }
    }
}

/// Hands a union-find the unions, and gives the ids that have another leader.
fn sync_one(u: &mut NativeUf, rows: &Vec<UnionRow>) -> (d: Vec<i64>)
    requires
        at_rest(*old(u)),
    ensures
        synced(*old(u), rows@, *final(u)),
        forall|x: i64| #[trigger] d@.contains(x) <==> moved(*old(u), *final(u), x),
        d@.len() == moved_ids(*old(u), *final(u)).len(),
{
    let n: usize = rows.len();
    let mut latest: i64 = u.last_sync;
    assert(union_pairs(rows@.take(0)) =~= Seq::empty());
    assert(u.table.pending() =~= union_pairs(rows@.take(0)));
    for i in 0..n
        invariant
            n == rows@.len(),
            u.table.wf(),
            u.name == old(u).name,
            u.last_sync == old(u).last_sync,
            u.table.find() == old(u).table.find(),
            u.table.displaced().len() == 0,
            u.table.pending() == union_pairs(rows@.take(i as int)),
            latest == newest(rows@.take(i as int), old(u).last_sync),
    {
        let r = rows[i];
        u.table.enqueue_union(r.0, r.1);
        proof {
            assert(rows@.take(i + 1).drop_last() =~= rows@.take(i as int));
            assert(rows@.take(i + 1).last() == rows@[i as int]);
            assert(union_pairs(rows@.take(i + 1)) =~= union_pairs(rows@.take(i as int)).push(
                (r.0, r.1),
            ));
        }
        if r.2 > latest {
            latest = r.2;
        }
    }
    assert(rows@.take(n as int) =~= rows@);
    let ghost f = u.table.find();
    u.table.drain_pending();
    let d = u.table.drain_displaced();
    u.last_sync = latest;
    proof {
        assert forall|x: i64| #[trigger] d@.contains(x) <==> moved(*old(u), *u, x) by {
            assert(u.table.find()(x) != f(x) <==> d@.contains(x));
        }
        assert(d@.to_set() =~= moved_ids(*old(u), *u));
        d@.unique_seq_to_set();
    }
    d
}

impl EGraph {
    /// The queries for the unions that the union-finds have not taken yet, one for each union-find
    /// whose table has news.
    pub fn uf_sync_scans(&self) -> (scans: Vec<Option<String>>)
        requires
            self.wf(),
        ensures
            scans@.len() == self@.ufs.len(),
            forall|i: int|
                0 <= i < scans@.len() ==> opt_text(#[trigger] scans@[i]) == scan_of(
                    self@,
                    self@.ufs[i],
                ),
    {
        let mut scans: Vec<Option<String>> = Vec::new();
        let n: usize = self.native_ufs.len();
        for i in 0..n
            invariant
                n == self.native_ufs@.len(),
                self.wf(),
                scans@.len() == i,
                forall|k: int|
                    0 <= k < i ==> opt_text(#[trigger] scans@[k]) == scan_of(self@, self@.ufs[k]),
        {
            let u = &self.native_ufs[i];
            let scan = match self.native_uf_pname.get(u.name.as_str()) {
                None => None,
                Some(p) => {
                    assert(self@.pnames[u.name@] == p@);
                    if self.progress.watermarks.get_or(p.as_str(), 0) > u.last_sync {
                        Some(unions_after_sql(p.as_str(), u.last_sync))
                    } else {
                        None
                    }
                },
            };
            scans.push(scan);
        }
        scans
    }

    /// Hands the union-finds the unions that were read for them, and gives how many ids have
    /// another leader by that. With the in-core union-find on, the ids with another leader are
    /// collected.
    pub fn sync_native_ufs(&mut self, rows: &Vec<Option<Vec<UnionRow>>>) -> (total: usize)
        requires
            old(self).wf(),
            rows@.len() == old(self)@.ufs.len(),
        ensures
            final(self).wf(),
            final(self)@ == (EgView {
                ufs: final(self)@.ufs,
                unions_synced: ((old(self)@.unions_synced + row_total(rows@))
                    % 0x1_0000_0000_0000_0000) as u64,
                changed: final(self)@.changed,
                recent: if old(self)@.native_uf && rows@.len() > 0 {
                    total
                } else {
                    old(self)@.recent
                },
                ..old(self)@
            }),
            final(self)@.ufs.len() == old(self)@.ufs.len(),
            forall|i: int|
                0 <= i < rows@.len() ==> match #[trigger] rows@[i] {
                    Some(r) => synced(old(self)@.ufs[i], r@, final(self)@.ufs[i]),
                    None => final(self)@.ufs[i] == old(self)@.ufs[i],
                },
            forall|x: i64| #[trigger]
                final(self)@.changed.contains(x) <==> old(self)@.changed.contains(x) || (
                old(self)@.native_uf && moved_in(old(self)@.ufs, final(self)@.ufs, x)),
            total == vstd::math::min(
                moved_total(old(self)@.ufs, final(self)@.ufs, rows@.len()) as int,
                usize::MAX as int,
            ),
            total == 0 <==> forall|x: i64| !#[trigger]
                moved_in(old(self)@.ufs, final(self)@.ufs, x),
    {
        let n: usize = self.native_ufs.len();
        let ghost us = old(self)@.ufs;
        let accumulate = self.native_uf_enabled;
        let mut total: usize = 0;
        assert(rows@.take(0) =~= Seq::empty());
        proof {
            lemma_small_sum(self.native_uf_unions_synced);
        }
        for i in 0..n
            invariant
                n == us.len(),
                rows@.len() == n,
                us == old(self)@.ufs,
                self.native_ufs@.len() == n,
                self.wf(),
                accumulate == old(self)@.native_uf,
                self@ == (EgView {
                    ufs: self@.ufs,
                    unions_synced: ((old(self)@.unions_synced + row_total(rows@.take(i as int)))
                        % 0x1_0000_0000_0000_0000) as u64,
                    changed: self@.changed,
                    ..old(self)@
                }),
                forall|k: int|
                    0 <= k < i ==> match #[trigger] rows@[k] {
                        Some(r) => synced(us[k], r@, self@.ufs[k]),
                        None => self@.ufs[k] == us[k],
                    },
                forall|k: int| i <= k < n ==> #[trigger] self@.ufs[k] == us[k],
                forall|x: i64| #[trigger]
                    self@.changed.contains(x) <==> old(self)@.changed.contains(x) || (accumulate
                        && moved_in(us, self@.ufs, x)),
                total == vstd::math::min(
                    moved_total(us, self@.ufs, i as nat) as int,
                    usize::MAX as int,
                ),
                total == 0 <==> forall|x: i64| !#[trigger] moved_in(us, self@.ufs, x),
        {
            let ghost before = self@.ufs;
            let ghost was = self@.changed;
            let ghost was_total = total;
            assert(rows@.take(i + 1).drop_last() =~= rows@.take(i as int));
            assert(rows@.take(i + 1).last() == rows@[i as int]);
            match &rows[i] {
                None => {
                    proof {
                        assert(moved_ids(us[i as int], before[i as int]) =~= Set::empty());
                    }
                },
                Some(r) => {
                    let d = sync_one(&mut self.native_ufs[i], r);
                    let count: u64 = r.len() as u64;
                    let ghost now = self.native_ufs@;
                    proof {
                        lemma_moved_step(us, before, now, i as int);
                        lemma_moved_total(us, before, now, i as nat);
                        assert forall|k: int| 0 <= k < n implies at_rest(#[trigger] now[k]) by {
                            if k != i {
                                assert(now[k] == before[k]);
                            }
                        }
                        lemma_row_total(rows@.take(i as int));
                        lemma_wrapped_sum(
                            old(self)@.unions_synced,
                            row_total(rows@.take(i as int)),
                            count,
                        );
                        assert forall|x: i64| #[trigger]
                            moved(us[i as int], now[i as int], x) == d@.contains(x) by {}
                    }
                    if total > usize::MAX - d.len() {
                        total = usize::MAX;
                    } else {
                        total = total + d.len();
                    }
                    if accumulate {
                        self.adaptive_changed_ids.extend(&d);
                    }
                    self.native_uf_unions_synced = wrapping(self.native_uf_unions_synced, count);
                    proof {
                        if d@.len() > 0 {
                            assert(d@.contains(d@[0]));
                            assert(moved_in(us, now, d@[0]));
                        } else if was_total > 0 {
                            let x = choose|x: i64| moved_in(us, before, x);
                            assert(moved_in(us, now, x));
                        }
                    }
                },
            }
        }
        assert(rows@.take(n as int) =~= rows@);
        if self.native_uf_enabled && n > 0 {
            self.adaptive_recent_displaced = total;
        }
        total
    }
}

proof fn lemma_small_sum(a: u64)
    ensures
        (a + 0) % 0x1_0000_0000_0000_0000 == a,
{
}

proof fn lemma_row_total(rows: Seq<Option<Vec<UnionRow>>>)
    ensures
        row_total(rows) >= 0,
    decreases rows.len(),
{
    if rows.len() > 0 {
        lemma_row_total(rows.drop_last());
    }
}

/// Adding step by step, modulo 2^64, is adding at once.
proof fn lemma_wrapped_sum(a: u64, b: int, c: u64)
    requires
        b >= 0,
    ensures
        wrapped(((a + b) % 0x1_0000_0000_0000_0000) as u64, c) == ((a + (b + c))
            % 0x1_0000_0000_0000_0000) as u64,
{
    let m: int = 0x1_0000_0000_0000_0000;
    let s = a + b;
    assert((s % m + c) % m == (s + c) % m) by {
        vstd::arithmetic::div_mod::lemma_add_mod_noop(s, c as int, m);
        vstd::arithmetic::div_mod::lemma_small_mod(c as nat, m as nat);
    }
}

/// When one union-find goes on, the ids that move are those that moved before and those that move
/// in it.
proof fn lemma_moved_step(us: Seq<NativeUf>, before: Seq<NativeUf>, now: Seq<NativeUf>, i: int)
    requires
        us.len() == before.len(),
        us.len() == now.len(),
        0 <= i < us.len(),
        before[i] == us[i],
        forall|k: int| 0 <= k < us.len() && k != i ==> now[k] == before[k],
    ensures
        forall|x: i64| #[trigger]
            moved_in(us, now, x) <==> moved_in(us, before, x) || moved(us[i], now[i], x),
{
    assert forall|x: i64| #[trigger] moved_in(us, now, x) <==> moved_in(us, before, x) || moved(
        us[i],
        now[i],
        x,
    ) by {
        if moved_in(us, before, x) {
            let k = choose|k: int| 0 <= k < us.len() && #[trigger] moved(us[k], before[k], x);
            assert(k != i);
            assert(moved(us[k], now[k], x));
        }
        if moved_in(us, now, x) {
            let k = choose|k: int| 0 <= k < us.len() && #[trigger] moved(us[k], now[k], x);
            if k != i {
                assert(moved(us[k], before[k], x));
            }
        }
    }
}

/// The two ids of every union that a union-find has taken have the same leader.
pub proof fn synced_ids_share_a_leader(u: NativeUf, rows: Seq<UnionRow>, u2: NativeUf, i: int)
    requires
        synced(u, rows, u2),
        0 <= i < rows.len(),
    ensures
        u2.table.find()(rows[i].0) == u2.table.find()(rows[i].1),
{
    crate::feldera::uf::unions_unite(u.table.find(), union_pairs(rows), i);
    assert(union_pairs(rows)[i] == (rows[i].0, rows[i].1));
}

/// A union-find that has taken all the unions up to its table's newest row is not scanned for
/// again.
pub proof fn synced_is_not_scanned_again(g: EgView, u: NativeUf, rows: Seq<UnionRow>, u2: NativeUf)
    requires
        synced(u, rows, u2),
        g.pnames.contains_key(u.name@),
        value_or(g.progress.watermarks, g.pnames[u.name@], 0) <= newest(rows, u.last_sync),
    ensures
        scan_of(g, u2) is None,
{
}

/// Whether a rule has a gated variant.
pub open spec fn gated(r: CompiledRule) -> bool {
    exists|i: int| 0 <= i < r.variants@.len() && (#[trigger] r.variants@[i]).gate_table is Some
}

fn rule_gated(r: &CompiledRule) -> (b: bool)
    ensures
        b == gated(*r),
{
    let n: usize = r.variants.len();
    for i in 0..n
        invariant
            n == r.variants@.len(),
            forall|k: int| 0 <= k < i ==> (#[trigger] r.variants@[k]).gate_table is None,
    {
        if r.variants[i].gate_table.is_some() {
            return true;
        }
    }
    false
}

/// The tables that the rules with a gated variant read, each once.
pub open spec fn scanned_tables(rules: Seq<CompiledRule>) -> Seq<Seq<char>>
    decreases rules.len(),
{
    if rules.len() == 0 {
        Seq::empty()
    } else {
        let front = scanned_tables(rules.drop_last());
        if gated(rules.last()) {
            with_names(front, texts(rules.last().body_tables@))
        } else {
            front
        }
    }
}

/// The sum of counts.
pub open spec fn count_sum(counts: Seq<i64>) -> int
    decreases counts.len(),
{
    if counts.len() == 0 {
        0
    } else {
        count_sum(counts.drop_last()) + counts.last()
    }
}

/// A sum as a size: nothing below zero, and no more than fits.
pub open spec fn as_size(n: int) -> usize {
    if n < 0 {
        0
    } else if n > usize::MAX {
        usize::MAX
    } else {
        n as usize
    }
}

/// How gated variants are run: over the rows with a changed id, where both the changes of the last
/// sync and all the changes are few compared to the rows that a full scan reads.
pub open spec fn chosen_mode(g: EgView, id_space: usize, threshold: usize) -> GateMode {
    if !g.native_uf || id_space == 0 || g.recent > threshold || g.changed.len() > threshold {
        GateMode::FullScan
    } else {
        GateMode::Delta
    }
}

/// The restricted form is never run on more changed ids than the threshold.
pub proof fn delta_is_bounded(g: EgView, id_space: usize, threshold: usize)
    requires
        chosen_mode(g, id_space, threshold) is Delta,
    ensures
        g.changed.len() <= threshold,
        g.recent <= threshold,
        id_space > 0,
{
}

/// The statements that make the table of changed ids.
pub open spec fn changed_statements(ids: Seq<i64>) -> Seq<Seq<char>> {
    let create = "CREATE OR REPLACE TEMP TABLE __UF_CHANGED__ (id BIGINT)"@;
    if ids.len() == 0 {
        seq![create]
    } else {
        seq![create, insert_changed(ids)]
    }
}

/// The sum of counts as a size.
pub fn adaptive_id_space(counts: &Vec<i64>) -> (r: usize)
    ensures
        r == as_size(count_sum(counts@)),
{
    let n: usize = counts.len();
    let mut total: i128 = 0;
    for i in 0..n
        invariant
            n == counts@.len(),
            n <= 0xffff_ffff_ffff_ffff,
            total == count_sum(counts@.take(i as int)),
            -0x8000_0000_0000_0000 * i <= total <= 0x7fff_ffff_ffff_ffff * i,
    {
        assert(counts@.take(i + 1).drop_last() =~= counts@.take(i as int));
        assert(counts@.take(i + 1).last() == counts@[i as int]);
        total = total + counts[i] as i128;
    }
    assert(counts@.take(n as int) =~= counts@);
    if total < 0 {
        0
    } else if total > usize::MAX as i128 {
        usize::MAX
    } else {
        total as usize
    }
}

impl EGraph {
    /// The tables that full scans read.
    pub fn scanned_tables(&self) -> (r: Vec<String>)
        ensures
            texts(r@) == scanned_tables(self@.rules),
    {
        let mut r: Vec<String> = Vec::new();
        let n: usize = self.rules.len();
        let ghost rules = self.rules@;
        assert(texts(r@) =~= Seq::empty());
        for i in 0..n
            invariant
                n == rules.len(),
                rules == self.rules@,
                texts(r@) == scanned_tables(rules.take(i as int)),
        {
            assert(rules.take(i + 1).drop_last() =~= rules.take(i as int));
            assert(rules.take(i + 1).last() == rules[i as int]);
            if rule_gated(&self.rules[i]) {
                let m: usize = self.rules[i].body_tables.len();
                let ghost more = texts(self.rules@[i as int].body_tables@);
                let ghost front = texts(r@);
                for j in 0..m
                    invariant
                        i < self.rules@.len(),
                        m == self.rules@[i as int].body_tables@.len(),
                        more == texts(self.rules@[i as int].body_tables@),
                        texts(r@) == with_names(front, more.take(j as int)),
                {
                    assert(more.take(j + 1).drop_last() =~= more.take(j as int));
                    assert(more.take(j + 1).last() == more[j as int]);
                    add_name(&mut r, self.rules[i].body_tables[j].as_str());
                }
                assert(more.take(m as int) =~= more);
            }
        }
        assert(rules.take(n as int) =~= rules);
        r
    }

    /// How gated variants are run in this iteration. `id_space` is how many rows a full scan reads,
    /// and `threshold` how many changed ids are few compared to it.
    pub fn adaptive_gate_mode(&self, id_space: usize, threshold: usize) -> (m: GateMode)
        ensures
            m == chosen_mode(self@, id_space, threshold),
    {
        if !self.native_uf_enabled || id_space == 0 || self.adaptive_recent_displaced > threshold
            || self.adaptive_changed_ids.len() > threshold {
            GateMode::FullScan
        } else {
            GateMode::Delta
        }
    }

    /// The statements that make the table of changed ids.
    pub fn materialize_uf_changed(&self) -> (v: Vec<String>)
        ensures
            texts(v@) == changed_statements(self@.changed),
    {
        let mut v: Vec<String> = Vec::new();
        v.push("CREATE OR REPLACE TEMP TABLE __UF_CHANGED__ (id BIGINT)".to_owned());
        if self.adaptive_changed_ids.len() > 0 {
            v.push(insert_changed_sql(self.adaptive_changed_ids.ids()));
        }
        assert(texts(v@) =~= changed_statements(self@.changed));
        v
    }

    /// Forgets the changed ids, where the in-core union-find is on. A full scan passes over the
    /// rows of its own iteration, so this is only for experiments.
    pub fn adaptive_reset_changed(&mut self)
        requires
            old(self).wf(),
        ensures
            final(self).wf(),
            final(self)@ == if old(self)@.native_uf {
                EgView { changed: Seq::empty(), ..old(self)@ }
            } else {
                old(self)@
            },
    {
        if self.native_uf_enabled {
            self.adaptive_changed_ids = ChangedIds::new();
        }
    }
}

/// Which rules an iteration runs.
#[derive(Debug)]
pub enum Selection {
    /// Those of a ruleset, or all.
    Ruleset(Option<String>),
    /// Those of some rulesets; all, where none is named.
    Any(Vec<String>),
    /// Those at these positions, in this order.
    Indices(Vec<usize>),
}

/// Whether the in-core union-find makes a rule needless.
pub open spec fn needless(g: EgView, r: CompiledRule) -> bool {
    g.native_uf && uf_maintenance(r.ruleset@)
}

/// Whether a selection by ruleset takes a rule.
pub open spec fn takes(g: EgView, s: Selection, r: CompiledRule) -> bool {
    match s {
        Selection::Ruleset(rs) => (rs is None || rs->0@ == r.ruleset@) && !needless(g, r) && !(
        g.native_uf && stem(r.name@) == "congruence_rule"@),
        Selection::Any(names) => (names@.len() == 0 || texts(names@).contains(r.ruleset@))
            && !needless(g, r),
        Selection::Indices(_) => !needless(g, r),
    }
}

/// The positions that a selection looks at, in order.
pub open spec fn looked_at(g: EgView, s: Selection) -> Seq<usize> {
    match s {
        Selection::Indices(v) => v@,
        _ => Seq::new(g.rules.len(), |i: int| i as usize),
    }
}

/// The rules of the first positions that an iteration runs, each with the time at which it last
/// ran.
pub open spec fn planned(g: EgView, s: Selection, at: Seq<usize>) -> Seq<(usize, i64)>
    decreases at.len(),
{
    if at.len() == 0 {
        Seq::empty()
    } else {
        let front = planned(g, s, at.drop_last());
        let i = at.last();
        if i < g.rules.len() && takes(g, s, g.rules[i as int]) {
            front.push((i, value_or(g.last_run_at, g.rules[i as int].name@, 0)))
        } else {
            front
        }
    }
}

/// Whether a selection has a rule with a gated variant.
pub open spec fn has_gated(g: EgView, s: Selection) -> bool {
    match s {
        Selection::Indices(v) => exists|k: int|
            0 <= k < v@.len() && (#[trigger] v@[k]) < g.rules.len() && gated(
                g.rules[v@[k] as int],
            ),
        _ => exists|k: int|
            0 <= k < g.rules.len() && takes(g, s, #[trigger] g.rules[k]) && gated(g.rules[k]),
    }
}

impl EGraph {
    /// Whether a selection takes a rule.
    fn rule_taken(&self, s: &Selection, r: &CompiledRule) -> (b: bool)
        ensures
            b == takes(self@, *s, *r),
    {
        if self.native_uf_enabled && is_uf_maintenance_ruleset(r.ruleset.as_str()) {
            return false;
        }
        match s {
            Selection::Ruleset(rs) => {
                if self.native_uf_enabled && is_congruence_rule_name(r.name.as_str()) {
                    return false;
                }
                match rs {
                    Some(n) => str_eq(n.as_str(), r.ruleset.as_str()),
                    None => true,
                }
            },
            Selection::Any(names) => names.len() == 0 || holds_name(names, r.ruleset.as_str()),
            Selection::Indices(_) => true,
        }
    }

    /// Whether one of the rules at the positions has a gated variant.
    pub fn rules_have_gated(&self, indices: &Vec<usize>) -> (b: bool)
        ensures
            b == exists|k: int|
                0 <= k < indices@.len() && (#[trigger] indices@[k]) < self@.rules.len() && gated(
                    self@.rules[indices@[k] as int],
                ),
    {
        let n: usize = indices.len();
        for i in 0..n
            invariant
                n == indices@.len(),
                forall|k: int|
                    0 <= k < i ==> !((#[trigger] indices@[k]) < self@.rules.len() && gated(
                        self@.rules[indices@[k] as int],
                    )),
        {
            let at: usize = indices[i];
            if at < self.rules.len() && rule_gated(&self.rules[at]) {
                return true;
            }
        }
        false
    }

    /// Whether a selection has a rule with a gated variant. Only then is there a gate mode to
    /// choose.
    pub fn selection_gated(&self, s: &Selection) -> (b: bool)
        ensures
            b == has_gated(self@, *s),
    {
        match s {
            Selection::Indices(v) => self.rules_have_gated(v),
            _ => {
                let n: usize = self.rules.len();
                for i in 0..n
                    invariant
                        n == self.rules@.len(),
                        !(*s is Indices),
                        forall|k: int|
                            0 <= k < i ==> !(takes(self@, *s, #[trigger] self@.rules[k]) && gated(
                                self@.rules[k],
                            )),
                {
                    if self.rule_taken(s, &self.rules[i]) && rule_gated(&self.rules[i]) {
                        assert(takes(self@, *s, self@.rules[i as int]));
                        return true;
                    }
                }
                false
            },
        }
    }

    /// The position that a selection looks at next.
    fn position(&self, s: &Selection, i: usize) -> (p: usize)
        requires
            i < looked_at(self@, *s).len(),
        ensures
            p == looked_at(self@, *s)[i as int],
    {
        match s {
            Selection::Indices(v) => v[i],
            _ => i,
        }
    }

    /// Begins an iteration: `synced` is how many changes of leader the sync has brought. Gives the
    /// rules that run, each with the time at which it last ran.
    pub fn begin_iteration(&mut self, s: &Selection, synced: usize) -> (plan: Vec<(usize, i64)>)
        requires
            old(self).wf(),
            old(self)@.next_ts < i64::MAX,
        ensures
            final(self).wf(),
            plan@ == planned(old(self)@, *s, looked_at(old(self)@, *s)),
            final(self)@ == (EgView {
                next_ts: (old(self)@.next_ts + 1) as i64,
                progress: ProgressView {
                    affected: wrapped(old(self)@.progress.affected, synced as u64),
                    ..old(self)@.progress
                },
                ..old(self)@
            }),
    {
        let ghost at = looked_at(self@, *s);
        let n: usize = match s {
            Selection::Indices(v) => v.len(),
            _ => self.rules.len(),
        };
        let mut plan: Vec<(usize, i64)> = Vec::new();
        for i in 0..n
            invariant
                n == at.len(),
                *self == *old(self),
                self.wf(),
                at == looked_at(self@, *s),
                plan@ == planned(self@, *s, at.take(i as int)),
        {
            assert(at.take(i + 1).drop_last() =~= at.take(i as int));
            assert(at.take(i + 1).last() == at[i as int]);
            let p: usize = self.position(s, i);
            if p < self.rules.len() && self.rule_taken(s, &self.rules[p]) {
                let last: i64 = self.last_run_at.get_or(self.rules[p].name.as_str(), 0);
                plan.push((p, last));
            }
        }
        assert(at.take(n as int) =~= at);
        self.progress.count_affected(synced as u64);
        self.next_ts = self.next_ts + 1;
        plan
    }

    /// Notes that a rule has run in the current iteration.
    pub fn end_rule(&mut self, rule: usize)
        requires
            old(self).wf(),
            rule < old(self)@.rules.len(),
        ensures
            final(self).wf(),
            final(self)@ == (EgView {
                last_run_at: old(self)@.last_run_at.insert(
                    old(self)@.rules[rule as int].name@,
                    old(self)@.next_ts,
                ),
                ..old(self)@
            }),
    {
        let name = self.rules[rule].name.clone();
        let cur: i64 = self.next_ts;
        self.last_run_at.insert(name, cur);
    }

    /// Whether the passes over the views follow an iteration of a ruleset: only the rules of a
    /// program and the rebuild make new view rows.
    pub fn passes_follow(&self, ruleset: Option<&str>) -> (b: bool)
        ensures
            b == (self@.native_uf && (ruleset is None || stem(ruleset->0@) == "rebuilding"@)),
    {
        self.native_uf_enabled && match ruleset {
            None => true,
            Some(r) => is_rebuilding_ruleset(r),
        }
    }
}

} // verus!
