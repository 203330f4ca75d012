//! Computing a report: a memoised depth-first walk over its formula cells. A cell of
//! the same report (`C5`) or of another report (`REF`) is resolved before the formula
//! that reads it; a cell met again while it is still being resolved closes a cycle and
//! reads as `#REF!`. Every outside value (a report loaded by key, the amounts of one
//! batch of fetch keys) comes from the answers gathered so far; where one is missing
//! the walk stops and names it, and the caller asks for it and runs the walk again.
use vstd::prelude::*;
use crate::decimal::Dec;
use crate::formula::eval::{BalanceKey, KeyV};
use crate::formula::deps::keys_view;
use crate::formula::report::{ReportSnapshot, CellInput, report_key_spec, cell_index, effective_spec, lemma_cell_index};
use crate::formula::ast::{Node, NodeV, parse, parse_spec, node_view};
use crate::formula::eval::{EvalCtx, Scope, ScopeV, empty_scope, eval_spec, val_lookup, addr_key_spec, addr_key, try_eval, opt_val};
use crate::formula::deps::{RefV, DepsV, deps_spec, try_deps, refs_view};
use crate::formula::report::{report_key, ComputedCell, ComputeOutcome};
use crate::formula::value::{FValue, FVal};
use crate::text::{str_eq, str_lt, seq_lt, copy_str, append_str};
use crate::order::views;

verus! {

// ----------------------------------------------------------------------------
// The key batch one formula fetches: keys ordered by object (stably), repeats
// next to each other dropped.
// ----------------------------------------------------------------------------
/// Inserts a key after every key whose object does not come after its own.
pub open spec fn insert_by_object(s: Seq<KeyV>, k: KeyV) -> Seq<KeyV>
    decreases s.len(),
{
    if s.len() == 0 {
        seq![k]
    } else if seq_lt(k.3, s.last().3) {
        insert_by_object(s.drop_last(), k).push(s.last())
    } else {
        s.push(k)
    }
}

/// The keys ordered by object, keys with equal objects in their first order.
pub open spec fn sort_by_object(s: Seq<KeyV>) -> Seq<KeyV>
    decreases s.len(),
{
    if s.len() == 0 {
        Seq::empty()
    } else {
        insert_by_object(sort_by_object(s.drop_last()), s.last())
    }
}

/// The keys with each run of equal neighbours kept once.
pub open spec fn dedup_keys(s: Seq<KeyV>) -> Seq<KeyV>
    decreases s.len(),
{
    if s.len() == 0 {
        Seq::empty()
    } else {
        let d = dedup_keys(s.drop_last());
        if d.len() > 0 && d.last() == s.last() {
            d
        } else {
            d.push(s.last())
        }
    }
}

/// The request for a formula's fetch keys.
pub open spec fn batch_request(keys: Seq<KeyV>) -> Seq<KeyV> {
    dedup_keys(sort_by_object(keys))
}

/// A copy of a key.
pub fn copy_key(k: &BalanceKey) -> (r: BalanceKey)
    ensures
        r@ == k@,
{
    BalanceKey { kind: k.kind, period: k.period.clone(), org: k.org.clone(), object: k.object.clone() }
}

/// Whether two keys are the same key.
pub fn key_eq(a: &BalanceKey, b: &BalanceKey) -> (r: bool)
    ensures
        r == (a@ == b@),
{
    a.kind == b.kind && str_eq(a.period.as_str(), b.period.as_str()) && str_eq(a.org.as_str(), b.org.as_str())
        && str_eq(a.object.as_str(), b.object.as_str())
}

fn insert_key_by_object(v: &mut Vec<BalanceKey>, k: BalanceKey)
    ensures
        keys_view(final(v)@) == insert_by_object(keys_view(old(v)@), k@),
    decreases old(v)@.len(),
{
    let ghost s = keys_view(v@);
    if v.len() == 0 {
        v.push(k);
        assert(keys_view(v@) =~= seq![k@]);
    } else {
        let last = v.pop().unwrap();
        assert(keys_view(v@) =~= s.drop_last());
        if str_lt(k.object.as_str(), last.object.as_str()) {
            insert_key_by_object(v, k);
            let ghost mid = keys_view(v@);
            v.push(last);
            assert(keys_view(v@) =~= mid.push(last@));
        } else {
            v.push(last);
            assert(keys_view(v@) =~= s);
            v.push(k);
            assert(keys_view(v@) =~= s.push(k@));
        }
    }
}

/// The keys of one formula as one batch request (see `batch_request`).
pub fn request_of(keys: &Vec<BalanceKey>) -> (r: Vec<BalanceKey>)
    ensures
        keys_view(r@) == batch_request(keys_view(keys@)),
{
    let mut sorted: Vec<BalanceKey> = Vec::new();
    let mut i: usize = 0;
    assert(keys_view(keys@).subrange(0, 0) =~= Seq::<KeyV>::empty());
    while i < keys.len()
        invariant
            i <= keys@.len(),
            keys_view(sorted@) == sort_by_object(keys_view(keys@).subrange(0, i as int)),
        decreases keys@.len() - i,
    {
        let ghost pre = keys_view(keys@).subrange(0, i as int + 1);
        assert(pre.drop_last() =~= keys_view(keys@).subrange(0, i as int));
        assert(pre.last() == keys@[i as int]@);
        insert_key_by_object(&mut sorted, copy_key(&keys[i]));
        i = i + 1;
    }
    assert(keys_view(keys@).subrange(0, keys@.len() as int) =~= keys_view(keys@));
    let ghost srt = keys_view(sorted@);
    let mut out: Vec<BalanceKey> = Vec::new();
    let mut j: usize = 0;
    assert(srt.subrange(0, 0) =~= Seq::<KeyV>::empty());
    while j < sorted.len()
        invariant
            j <= sorted@.len(),
            srt == keys_view(sorted@),
            keys_view(out@) == dedup_keys(srt.subrange(0, j as int)),
        decreases sorted@.len() - j,
    {
        let ghost pre = srt.subrange(0, j as int + 1);
        assert(pre.drop_last() =~= srt.subrange(0, j as int));
        assert(pre.last() == sorted@[j as int]@);
        let n = out.len();
        if n > 0 && key_eq(&out[n - 1], &sorted[j]) {
            assert(keys_view(out@).last() == out@[n - 1]@);
        } else {
            let ghost before = keys_view(out@);
            out.push(copy_key(&sorted[j]));
            assert(keys_view(out@) =~= before.push(sorted@[j as int]@));
            proof {
                if n > 0 {
                    assert(before.last() == out@[n - 1]@);
                }
            }
        }
        j = j + 1;
    }
    assert(srt.subrange(0, sorted@.len() as int) =~= srt);
    out
}


// ----------------------------------------------------------------------------
// The answers gathered so far
// ----------------------------------------------------------------------------
/// What asking for a report gave.
pub enum Loaded {
    Found(ReportSnapshot),
    /// There is no such report.
    Missing,
    /// Loading failed, with the reason.
    Failed(String),
}

/// The answers of the data provider so far.
pub struct World {
    /// (report key, what loading that report gave); see `report_key`.
    pub reports: Vec<(String, Loaded)>,
    /// (requested keys, the amounts found or why fetching failed).
    pub batches: Vec<(Vec<BalanceKey>, Result<Vec<(BalanceKey, Dec)>, String>)>,
}

/// The first answer for a report key.
pub open spec fn first_loaded(rs: Seq<(String, Loaded)>, key: Seq<char>) -> Option<Loaded>
    decreases rs.len(),
{
    if rs.len() == 0 {
        None
    } else if rs[0].0@ == key {
        Some(rs[0].1)
    } else {
        first_loaded(rs.drop_first(), key)
    }
}

/// The report under a key: the report being computed first, then the answers.
pub open spec fn loaded_for(main: ReportSnapshot, rs: Seq<(String, Loaded)>, key: Seq<char>) -> Option<Loaded> {
    if report_key_spec(main.report@, main.version@, main.org@, main.period@) == key {
        Some(Loaded::Found(main))
    } else {
        first_loaded(rs, key)
    }
}

/// A batch answer as plain values.
pub type BatchV = Result<Seq<(KeyV, Dec)>, Seq<char>>;

pub open spec fn amounts_view(m: Seq<(BalanceKey, Dec)>) -> Seq<(KeyV, Dec)> {
    m.map_values(|e: (BalanceKey, Dec)| (e.0@, e.1))
}

pub open spec fn batch_view(b: Result<Vec<(BalanceKey, Dec)>, String>) -> BatchV {
    match b {
        Ok(m) => Ok(amounts_view(m@)),
        Err(e) => Err(e@),
    }
}

/// The first answer for a batch request.
pub open spec fn first_batch(
    bs: Seq<(Vec<BalanceKey>, Result<Vec<(BalanceKey, Dec)>, String>)>,
    req: Seq<KeyV>,
) -> Option<BatchV>
    decreases bs.len(),
{
    if bs.len() == 0 {
        None
    } else if keys_view(bs[0].0@) == req {
        Some(batch_view(bs[0].1))
    } else {
        first_batch(bs.drop_first(), req)
    }
}

/// The amounts a formula with these fetch keys reads: none without keys, else those
/// answered for its request (none where fetching failed); None while unanswered.
pub open spec fn fetched(
    bs: Seq<(Vec<BalanceKey>, Result<Vec<(BalanceKey, Dec)>, String>)>,
    keys: Seq<KeyV>,
) -> Option<Seq<(KeyV, Dec)>> {
    if keys.len() == 0 {
        Some(Seq::empty())
    } else {
        match first_batch(bs, batch_request(keys)) {
            Some(Ok(m)) => Some(m),
            Some(Err(_)) => Some(Seq::empty()),
            None => None,
        }
    }
}

fn find_loaded<'w>(rs: &'w Vec<(String, Loaded)>, key: &str) -> (r: Option<&'w Loaded>)
    ensures
        match first_loaded(rs@, key@) {
            Some(l) => r == Some(&l),
            None => r is None,
        },
{
    let mut i: usize = 0;
    assert(rs@.skip(0) =~= rs@);
    while i < rs.len()
        invariant
            i <= rs@.len(),
            first_loaded(rs@, key@) == first_loaded(rs@.skip(i as int), key@),
        decreases rs@.len() - i,
    {
        assert(rs@.skip(i as int)[0] == rs@[i as int]);
        assert(rs@.skip(i as int).drop_first() =~= rs@.skip(i + 1));
        if str_eq(rs[i].0.as_str(), key) {
            return Some(&rs[i].1);
        }
        i = i + 1;
    }
    None
}

fn keys_eq(a: &Vec<BalanceKey>, b: &Vec<BalanceKey>) -> (r: bool)
    ensures
        r == (keys_view(a@) == keys_view(b@)),
{
    if a.len() != b.len() {
        assert(keys_view(a@).len() != keys_view(b@).len());
        return false;
    }
    let mut i: usize = 0;
    while i < a.len()
        invariant
            i <= a@.len(),
            a@.len() == b@.len(),
            forall|j: int| 0 <= j < i ==> a@[j]@ == b@[j]@,
        decreases a@.len() - i,
    {
        if !key_eq(&a[i], &b[i]) {
            assert(keys_view(a@)[i as int] != keys_view(b@)[i as int]);
            return false;
        }
        i = i + 1;
    }
    assert(keys_view(a@) =~= keys_view(b@));
    true
}

fn find_batch<'w>(
    bs: &'w Vec<(Vec<BalanceKey>, Result<Vec<(BalanceKey, Dec)>, String>)>,
    req: &Vec<BalanceKey>,
) -> (r: Option<&'w Result<Vec<(BalanceKey, Dec)>, String>>)
    ensures
        match first_batch(bs@, keys_view(req@)) {
            Some(b) => r matches Some(x) && batch_view(*x) == b,
            None => r is None,
        },
{
    let mut i: usize = 0;
    assert(bs@.skip(0) =~= bs@);
    while i < bs.len()
        invariant
            i <= bs@.len(),
            first_batch(bs@, keys_view(req@)) == first_batch(bs@.skip(i as int), keys_view(req@)),
        decreases bs@.len() - i,
    {
        assert(bs@.skip(i as int)[0] == bs@[i as int]);
        assert(bs@.skip(i as int).drop_first() =~= bs@.skip(i + 1));
        if keys_eq(&bs[i].0, req) {
            return Some(&bs[i].1);
        }
        i = i + 1;
    }
    None
}

fn copy_amounts(m: &Vec<(BalanceKey, Dec)>) -> (r: Vec<(BalanceKey, Dec)>)
    ensures
        amounts_view(r@) == amounts_view(m@),
{
    let mut out: Vec<(BalanceKey, Dec)> = Vec::new();
    let mut i: usize = 0;
    while i < m.len()
        invariant
            i <= m@.len(),
            out@.len() == i,
            amounts_view(out@) == amounts_view(m@).subrange(0, i as int),
        decreases m@.len() - i,
    {
        let ghost old_view = amounts_view(out@);
        let k = copy_key(&m[i].0);
        let d = m[i].1;
        out.push((k, d));
        assert(out@[i as int] == (k, d));
        assert(amounts_view(out@)[i as int] == amounts_view(m@)[i as int]);
        assert(forall|j: int| 0 <= j < i ==> amounts_view(out@)[j] == old_view[j]);
        assert(amounts_view(out@) =~= amounts_view(m@).subrange(0, i as int + 1));
        i = i + 1;
    }
    assert(amounts_view(m@).subrange(0, m@.len() as int) =~= amounts_view(m@));
    out
}

// ----------------------------------------------------------------------------
// What a computed value is
// ----------------------------------------------------------------------------
/// Everything one computation reads, as plain values.
pub struct EnvV {
    /// The report being computed.
    pub main: ReportSnapshot,
    pub reports: Seq<(String, Loaded)>,
    pub batches: Seq<(Vec<BalanceKey>, Result<Vec<(BalanceKey, Dec)>, String>)>,
    pub periods: Seq<String>,
    pub org_parent: Seq<(String, String)>,
}

/// The memo key of a referenced cell.
pub open spec fn ref_addr(d: RefV) -> Seq<char> {
    addr_key_spec(d.0, d.1, d.2, d.3, d.4)
}

/// A stored value, or null.
pub open spec fn stored_or_null(s: Option<FValue>) -> FVal {
    match s {
        Some(v) => v@,
        None => FVal::Null,
    }
}

/// The evaluation context of a report: its organisation and period, and the periods
/// and organisation parents shared by every report.
pub open spec fn ctx_fits(ctx: EvalCtx, snap: ReportSnapshot, env: EnvV) -> bool {
    &&& ctx.org@ == snap.org@
    &&& ctx.period@ == snap.period@
    &&& ctx.periods@ == env.periods
    &&& ctx.org_parent@ == env.org_parent
}

/// The message recorded where reading cell `u` (report, version, organisation,
/// period, cell) closed a cycle.
pub open spec fn cycle_msg(u: RefV) -> Seq<char> {
    "循环引用: "@ + u.0 + "!"@ + u.4 + " ("@ + u.2 + "/"@ + u.3 + ")"@
}

/// How a formula reads cell `u` it depends on: as that cell's memoised value, or,
/// where no value is memoised for it, as `#REF!` where reading it closed a cycle,
/// with that cycle's message among `errs`.
pub open spec fn dep_ok(env: EnvV, memo: Seq<(String, FValue)>, errs: Seq<Seq<char>>, u: RefV, v: FVal) -> bool {
    val_lookup(memo, ref_addr(u)) == Some(v) || (val_lookup(memo, ref_addr(u)) is None && v == FVal::Error("#REF!"@)
        && on_cycle(env, ref_addr(u)) && errs.contains(cycle_msg(u)))
}

/// The formula of cell `t` of a loaded report, with that report: None for a missing
/// report or cell, a manual cell, a cell without formula, or one that does not parse.
pub open spec fn formula_of(env: EnvV, t: RefV) -> Option<(ReportSnapshot, NodeV)> {
    match loaded_for(env.main, env.reports, report_key_spec(t.0, t.1, t.2, t.3)) {
        Some(Loaded::Found(snap)) => {
            let i = cell_index(snap.cells@, t.4);
            if i < 0 {
                None
            } else {
                let ci = snap.cells@[i];
                if ci.is_manual || effective_spec(snap.element_formulas@, ci) is None {
                    None
                } else {
                    match parse_spec(effective_spec(snap.element_formulas@, ci)->0) {
                        Ok(ast) => Some((snap, ast)),
                        Err(_) => None,
                    }
                }
            }
        },
        _ => None,
    }
}

/// `b` is a cell that a formula reads, by its dependencies `d` (cells of `t`'s
/// report, then referenced cells).
pub open spec fn reads(d: DepsV, t: RefV, b: Seq<char>) -> bool {
    (exists|i: int| 0 <= i < d.1.len() && b == addr_key_spec(t.0, t.1, t.2, t.3, #[trigger] d.1[i])) || (exists|i: int|
        0 <= i < d.2.len() && b == ref_addr(#[trigger] d.2[i]))
}

/// `b` is a cell that the formula `ast` of cell `t` (memo key `a`, in report `snap`)
/// reads, its dependencies `d` taken in context `ctx` of that report.
pub open spec fn edge_with(
    env: EnvV,
    t: RefV,
    ctx: EvalCtx,
    snap: ReportSnapshot,
    ast: NodeV,
    d: DepsV,
    a: Seq<char>,
    b: Seq<char>,
) -> bool {
    &&& ref_addr(t) == a
    &&& formula_of(env, t) == Some((snap, ast))
    &&& ctx_fits(ctx, snap, env)
    &&& deps_spec(ast, empty_scope(ctx)) == Some(d)
    &&& reads(d, t, b)
}

/// A cell that no chain of formulas leads back to is never cut: a formula reading it
/// reads its memoised value.
pub proof fn lemma_acyclic_read(env: EnvV, memo: Seq<(String, FValue)>, errs: Seq<Seq<char>>, u: RefV, v: FVal)
    requires
        dep_ok(env, memo, errs, u, v),
        !on_cycle(env, ref_addr(u)),
    ensures
        val_lookup(memo, ref_addr(u)) == Some(v),
{
}

/// A cell read otherwise than as its memoised value had none memoised, was read as
/// `#REF!`, on a cycle, and the message of that cycle was recorded.
pub proof fn lemma_cut_recorded(env: EnvV, memo: Seq<(String, FValue)>, errs: Seq<Seq<char>>, u: RefV, v: FVal)
    requires
        dep_ok(env, memo, errs, u, v),
        val_lookup(memo, ref_addr(u)) != Some(v),
    ensures
        val_lookup(memo, ref_addr(u)) is None,
        v == FVal::Error("#REF!"@),
        on_cycle(env, ref_addr(u)),
        errs.contains(cycle_msg(u)),
{
}

/// The formula of the cell under memo key `a` reads the cell under `b`.
pub open spec fn edge(env: EnvV, a: Seq<char>, b: Seq<char>) -> bool {
    exists|t: RefV, ctx: EvalCtx, snap: ReportSnapshot, ast: NodeV, d: DepsV|
        #[trigger] edge_with(env, t, ctx, snap, ast, d, a, b)
}

/// Each cell's formula reads the next.
pub open spec fn path_ok(env: EnvV, p: Seq<Seq<char>>) -> bool {
    forall|i: int| 0 <= i < p.len() - 1 ==> #[trigger] edge(env, p[i], p[i + 1])
}

/// The cell under memo key `a` reads itself through a chain of formulas.
pub open spec fn on_cycle(env: EnvV, a: Seq<char>) -> bool {
    exists|p: Seq<Seq<char>>| #[trigger] path_ok(env, p) && p.len() >= 2 && p[0] == a && p.last() == a
}

/// The cells a formula reads from its own report (`t`'s report, version,
/// organisation and period): each dependency once, with how it reads.
pub open spec fn cells_fit(env: EnvV, cs: Seq<(String, FValue)>, deps: Seq<Seq<char>>, t: RefV, memo: Seq<(String, FValue)>, errs: Seq<Seq<char>>) -> bool {
    &&& cells_read(env, cs, deps, t, memo, errs)
    &&& forall|j: int| 0 <= j < deps.len() ==> has_entry(cs, #[trigger] deps[j])
}

/// Each cell entry is a dependency, read as `dep_ok` says.
pub open spec fn cells_read(env: EnvV, cs: Seq<(String, FValue)>, deps: Seq<Seq<char>>, t: RefV, memo: Seq<(String, FValue)>, errs: Seq<Seq<char>>) -> bool {
    forall|i: int|
        0 <= i < cs.len() ==> #[trigger] deps.contains(cs[i].0@) && dep_ok(env, memo, errs, (t.0, t.1, t.2, t.3, cs[i].0@), cs[i].1@)
}

proof fn lemma_cells_read_grows(
    env: EnvV,
    cs: Seq<(String, FValue)>,
    deps: Seq<Seq<char>>,
    t: RefV,
    m: Seq<(String, FValue)>,
    m2: Seq<(String, FValue)>,
    e: Seq<Seq<char>>,
    e2: Seq<Seq<char>>,
)
    requires
        cells_read(env, cs, deps, t, m, e),
        grows(m, m2),
        grows(e, e2),
        forall|i: int|
            #![trigger cs[i]]
            0 <= i < cs.len() ==> val_lookup(m, ref_addr((t.0, t.1, t.2, t.3, cs[i].0@))) == Some(cs[i].1@) || val_lookup(
                m2,
                ref_addr((t.0, t.1, t.2, t.3, cs[i].0@)),
            ) is None,
    ensures
        cells_read(env, cs, deps, t, m2, e2),
{
    assert forall|i: int| 0 <= i < cs.len() implies #[trigger] deps.contains(cs[i].0@) && dep_ok(env, m2, e2, (t.0, t.1, t.2, t.3, cs[i].0@), cs[i].1@) by {
        assert(deps.contains(cs[i].0@));
        lemma_dep_ok_grows(env, m, m2, e, e2, (t.0, t.1, t.2, t.3, cs[i].0@), cs[i].1@);
    }
}

/// Some entry is filed under `c`.
pub open spec fn has_entry(cs: Seq<(String, FValue)>, c: Seq<char>) -> bool {
    exists|k: int| 0 <= k < cs.len() && cs[k].0@ == c
}

/// The cells a formula references (`REF`), in order, under their memo keys.
pub open spec fn refs_fit(env: EnvV, rs: Seq<(String, FValue)>, deps: Seq<RefV>, memo: Seq<(String, FValue)>, errs: Seq<Seq<char>>) -> bool {
    &&& rs.len() == deps.len()
    &&& refs_read(env, rs, deps, memo, errs)
}

/// Each entry is the reference in the same place, read as `dep_ok` says.
pub open spec fn refs_read(env: EnvV, rs: Seq<(String, FValue)>, deps: Seq<RefV>, memo: Seq<(String, FValue)>, errs: Seq<Seq<char>>) -> bool {
    forall|i: int|
        #![trigger rs[i]]
        0 <= i < rs.len() ==> rs[i].0@ == ref_addr(deps[i]) && dep_ok(env, memo, errs, deps[i], rs[i].1@)
}

proof fn lemma_refs_read_grows(
    env: EnvV,
    rs: Seq<(String, FValue)>,
    deps: Seq<RefV>,
    m: Seq<(String, FValue)>,
    m2: Seq<(String, FValue)>,
    e: Seq<Seq<char>>,
    e2: Seq<Seq<char>>,
)
    requires
        refs_read(env, rs, deps, m, e),
        grows(m, m2),
        grows(e, e2),
        forall|i: int|
            #![trigger rs[i]]
            0 <= i < rs.len() ==> val_lookup(m, ref_addr(deps[i])) == Some(rs[i].1@) || val_lookup(m2, ref_addr(deps[i]))
                is None,
    ensures
        refs_read(env, rs, deps, m2, e2),
{
    assert forall|i: int| #![trigger rs[i]] 0 <= i < rs.len() implies rs[i].0@ == ref_addr(deps[i]) && dep_ok(env, m2, e2, deps[i], rs[i].1@) by {
        assert(rs[i].0@ == ref_addr(deps[i]) && dep_ok(env, m, e, deps[i], rs[i].1@));
        lemma_dep_ok_grows(env, m, m2, e, e2, deps[i], rs[i].1@);
    }
}

/// Each cell entry is read as its memoised value or is a cell still being resolved.
spec fn cells_live(cs: Seq<(String, FValue)>, t: RefV, memo: Seq<(String, FValue)>, stack: Seq<Seq<char>>) -> bool {
    forall|i: int|
        #![trigger cs[i]]
        0 <= i < cs.len() ==> val_lookup(memo, ref_addr((t.0, t.1, t.2, t.3, cs[i].0@))) == Some(cs[i].1@) || stack.contains(
            ref_addr((t.0, t.1, t.2, t.3, cs[i].0@)),
        )
}

/// Each referenced entry is read as its memoised value or is a cell still being
/// resolved.
spec fn refs_live(rs: Seq<(String, FValue)>, deps: Seq<RefV>, memo: Seq<(String, FValue)>, stack: Seq<Seq<char>>) -> bool {
    forall|i: int|
        #![trigger rs[i]]
        0 <= i < rs.len() ==> val_lookup(memo, ref_addr(deps[i])) == Some(rs[i].1@) || stack.contains(ref_addr(deps[i]))
}

/// While the cells still being resolved stay unmemoised, reads of the cells and
/// references of a formula stay valid as the memo and the errors grow.
proof fn lemma_reads_step(
    env: EnvV,
    cs: Seq<(String, FValue)>,
    deps: Seq<Seq<char>>,
    t: RefV,
    rs: Seq<(String, FValue)>,
    rdeps: Seq<RefV>,
    m: Seq<(String, FValue)>,
    m2: Seq<(String, FValue)>,
    e: Seq<Seq<char>>,
    e2: Seq<Seq<char>>,
    stack: Seq<String>,
)
    requires
        cells_read(env, cs, deps, t, m, e),
        refs_read(env, rs, rdeps, m, e),
        cells_live(cs, t, m, views(stack)),
        refs_live(rs, rdeps, m, views(stack)),
        grows(m, m2),
        grows(e, e2),
        forall|j: int| 0 <= j < stack.len() ==> val_lookup(m2, #[trigger] stack[j]@) is None,
    ensures
        cells_read(env, cs, deps, t, m2, e2),
        refs_read(env, rs, rdeps, m2, e2),
        cells_live(cs, t, m2, views(stack)),
        refs_live(rs, rdeps, m2, views(stack)),
{
    assert forall|a: Seq<char>| views(stack).contains(a) implies val_lookup(m2, a) is None by {
        let j = choose|j: int| 0 <= j < views(stack).len() && views(stack)[j] == a;
        assert(views(stack)[j] == stack[j]@);
    }
    assert forall|i: int|
        #![trigger cs[i]]
        0 <= i < cs.len() implies (val_lookup(m, ref_addr((t.0, t.1, t.2, t.3, cs[i].0@))) == Some(cs[i].1@) || val_lookup(
            m2,
            ref_addr((t.0, t.1, t.2, t.3, cs[i].0@)),
        ) is None) && (val_lookup(m2, ref_addr((t.0, t.1, t.2, t.3, cs[i].0@))) == Some(cs[i].1@) || views(stack).contains(
            ref_addr((t.0, t.1, t.2, t.3, cs[i].0@)),
        )) by {
        let a = ref_addr((t.0, t.1, t.2, t.3, cs[i].0@));
        if val_lookup(m, a) == Some(cs[i].1@) {
            lemma_lookup_extend(m, m2, a);
        }
    }
    assert forall|i: int|
        #![trigger rs[i]]
        0 <= i < rs.len() implies (val_lookup(m, ref_addr(rdeps[i])) == Some(rs[i].1@) || val_lookup(m2, ref_addr(rdeps[i]))
            is None) && (val_lookup(m2, ref_addr(rdeps[i])) == Some(rs[i].1@) || views(stack).contains(ref_addr(rdeps[i]))) by {
        if val_lookup(m, ref_addr(rdeps[i])) == Some(rs[i].1@) {
            lemma_lookup_extend(m, m2, ref_addr(rdeps[i]));
        }
    }
    lemma_cells_read_grows(env, cs, deps, t, m, m2, e, e2);
    lemma_refs_read_grows(env, rs, rdeps, m, m2, e, e2);
}

/// `v` is what formula `ast` of report `snap` gives over scope `sv`: the report's
/// context, the amounts answered for its fetch keys, and the cells it reads.
pub open spec fn formula_value(
    env: EnvV,
    t: RefV,
    snap: ReportSnapshot,
    ast: NodeV,
    sv: ScopeV,
    memo: Seq<(String, FValue)>,
    errs: Seq<Seq<char>>,
    v: FVal,
) -> bool {
    &&& ctx_fits(sv.ctx, snap, env)
    &&& sv.fields.len() == 0
    &&& deps_spec(ast, empty_scope(sv.ctx)) matches Some(d)
    &&& fetched(env.batches, d.0) == Some(amounts_view(sv.fetches))
    &&& cells_fit(env, sv.cells, d.1, t, memo, errs)
    &&& refs_fit(env, sv.refs, d.2, memo, errs)
    &&& eval_spec(ast, sv) == Some(v)
}

/// `v` is the value of cell `t` (report, version, organisation, period, cell): `#REF!`
/// where its report is missing or failed to load; null for a cell the report lacks;
/// the stored value (or null) of a manual cell or a cell without formula; `#FORMULA!`
/// for a formula that does not parse; else its formula's value.
pub open spec fn justified(env: EnvV, t: RefV, v: FVal, memo: Seq<(String, FValue)>, errs: Seq<Seq<char>>) -> bool {
    match loaded_for(env.main, env.reports, report_key_spec(t.0, t.1, t.2, t.3)) {
        Some(Loaded::Found(snap)) => {
            let i = cell_index(snap.cells@, t.4);
            if i < 0 {
                v == FVal::Null
            } else {
                let ci = snap.cells@[i];
                if ci.is_manual || effective_spec(snap.element_formulas@, ci) is None {
                    v == stored_or_null(ci.stored)
                } else {
                    match parse_spec(effective_spec(snap.element_formulas@, ci)->0) {
                        Ok(ast) => exists|sv: ScopeV| formula_value(env, t, snap, ast, sv, memo, errs, v),
                        Err(_) => v == FVal::Error("#FORMULA!"@),
                    }
                }
            }
        },
        Some(_) => v == FVal::Error("#REF!"@),
        None => false,
    }
}

/// Every memoised value is the value of the cell it was computed for, read from the
/// entries memoised before it (so a cycle is always cut somewhere, and recorded).
pub open spec fn memo_ok(env: EnvV, memo: Seq<(String, FValue)>, cells: Seq<RefV>, errs: Seq<Seq<char>>) -> bool {
    &&& memo.len() == cells.len()
    &&& forall|i: int|
        #![trigger memo[i]]
        0 <= i < memo.len() ==> memo[i].0@ == ref_addr(cells[i]) && justified(
            env,
            cells[i],
            memo[i].1@,
            memo.subrange(0, i),
            errs,
        )
}

pub proof fn lemma_lookup_extend(m: Seq<(String, FValue)>, m2: Seq<(String, FValue)>, k: Seq<char>)
    requires
        m.len() <= m2.len(),
        m2.subrange(0, m.len() as int) == m,
        val_lookup(m, k) is Some,
    ensures
        val_lookup(m2, k) == val_lookup(m, k),
    decreases m.len(),
{
    if m[0].0@ != k {
        assert(m2[0] == m[0]);
        let t = m.subrange(1, m.len() as int);
        let t2 = m2.subrange(1, m2.len() as int);
        assert(t2.subrange(0, t.len() as int) =~= t);
        lemma_lookup_extend(t, t2, k);
    } else {
        assert(m2[0] == m[0]);
    }
}

pub proof fn lemma_justified_extend(env: EnvV, t: RefV, v: FVal, m: Seq<(String, FValue)>, e: Seq<Seq<char>>, e2: Seq<Seq<char>>)
    requires
        grows(e, e2),
        justified(env, t, v, m, e),
    ensures
        justified(env, t, v, m, e2),
{
    lemma_grows_refl(m);
    match loaded_for(env.main, env.reports, report_key_spec(t.0, t.1, t.2, t.3)) {
        Some(Loaded::Found(snap)) => {
            let i = cell_index(snap.cells@, t.4);
            if i >= 0 {
                let ci = snap.cells@[i];
                if !(ci.is_manual || effective_spec(snap.element_formulas@, ci) is None) {
                    match parse_spec(effective_spec(snap.element_formulas@, ci)->0) {
                        Ok(ast) => {
                            let sv = choose|sv: ScopeV| formula_value(env, t, snap, ast, sv, m, e, v);
                            assert(exists|sv: ScopeV| formula_value(env, t, snap, ast, sv, m, e, v));
                            assert(formula_value(env, t, snap, ast, sv, m, e, v));
                            let d = deps_spec(ast, empty_scope(sv.ctx))->0;
                            assert(cells_read(env, sv.cells, d.1, t, m, e));
                            assert(refs_read(env, sv.refs, d.2, m, e));
                            assert forall|i: int|
                                #![trigger sv.cells[i]]
                                0 <= i < sv.cells.len() implies val_lookup(m, ref_addr((t.0, t.1, t.2, t.3, sv.cells[i].0@)))
                                    == Some(sv.cells[i].1@) || val_lookup(m, ref_addr((t.0, t.1, t.2, t.3, sv.cells[i].0@))) is None by {
                                assert(d.1.contains(sv.cells[i].0@));
                            }
                            lemma_cells_read_grows(env, sv.cells, d.1, t, m, m, e, e2);
                            lemma_refs_read_grows(env, sv.refs, d.2, m, m, e, e2);
                            assert(cells_fit(env, sv.cells, d.1, t, m, e2));
                            assert(refs_fit(env, sv.refs, d.2, m, e2));
                            assert(formula_value(env, t, snap, ast, sv, m, e2, v));
                        },
                        Err(_) => {},
                    }
                }
            }
        },
        _ => {},
    }
}

proof fn lemma_memo_push(
    env: EnvV,
    m: Seq<(String, FValue)>,
    cs: Seq<RefV>,
    errs: Seq<Seq<char>>,
    e: (String, FValue),
    t: RefV,
)
    requires
        memo_ok(env, m, cs, errs),
        e.0@ == ref_addr(t),
        justified(env, t, e.1@, m, errs),
    ensures
        memo_ok(env, m.push(e), cs.push(t), errs),
{
    let m2 = m.push(e);
    assert(m2.subrange(0, m.len() as int) =~= m);
    assert forall|i: int| #![trigger m2[i]] 0 <= i < m2.len() implies m2[i].0@ == ref_addr(cs.push(t)[i]) && justified(
        env,
        cs.push(t)[i],
        m2[i].1@,
        m2.subrange(0, i),
        errs,
    ) by {
        if i < m.len() {
            assert(m2[i] == m[i]);
            assert(m2.subrange(0, i) =~= m.subrange(0, i));
        }
    }
}

proof fn lemma_memo_errs(env: EnvV, m: Seq<(String, FValue)>, cs: Seq<RefV>, e: Seq<Seq<char>>, e2: Seq<Seq<char>>)
    requires
        memo_ok(env, m, cs, e),
        grows(e, e2),
    ensures
        memo_ok(env, m, cs, e2),
{
    assert forall|i: int| #![trigger m[i]] 0 <= i < m.len() implies m[i].0@ == ref_addr(cs[i]) && justified(
        env,
        cs[i],
        m[i].1@,
        m.subrange(0, i),
        e2,
    ) by {
        let pre = m.subrange(0, i);
        assert(m[i].0@ == ref_addr(cs[i]) && justified(env, cs[i], m[i].1@, pre, e));
        lemma_justified_extend(env, cs[i], m[i].1@, pre, e, e2);
    }
}

// ----------------------------------------------------------------------------
// Termination: every cell being resolved is a distinct cell of a loaded report
// ----------------------------------------------------------------------------
/// The memo keys of a report's cells.
pub open spec fn snap_addrs(key: Seq<char>, cells: Seq<CellInput>) -> Seq<Seq<char>> {
    cells.map_values(|ci: CellInput| key + seq!['|'] + ci.cell_ref@)
}

pub open spec fn entries_addrs(rs: Seq<(String, Loaded)>) -> Seq<Seq<char>>
    decreases rs.len(),
{
    if rs.len() == 0 {
        Seq::empty()
    } else {
        (match rs[0].1 {
            Loaded::Found(s) => snap_addrs(rs[0].0@, s.cells@),
            _ => Seq::empty(),
        }) + entries_addrs(rs.drop_first())
    }
}

/// The memo keys of every cell of every loaded report.
pub open spec fn all_addrs(env: EnvV) -> Seq<Seq<char>> {
    snap_addrs(report_key_spec(env.main.report@, env.main.version@, env.main.org@, env.main.period@), env.main.cells@)
        + entries_addrs(env.reports)
}

proof fn lemma_entry_addr(rs: Seq<(String, Loaded)>, key: Seq<char>, s: ReportSnapshot, j: int)
    requires
        first_loaded(rs, key) == Some(Loaded::Found(s)),
        0 <= j < s.cells@.len(),
    ensures
        entries_addrs(rs).contains(key + seq!['|'] + s.cells@[j].cell_ref@),
    decreases rs.len(),
{
    let x = key + seq!['|'] + s.cells@[j].cell_ref@;
    let head = match rs[0].1 {
        Loaded::Found(s0) => snap_addrs(rs[0].0@, s0.cells@),
        _ => Seq::empty(),
    };
    let rest = entries_addrs(rs.drop_first());
    assert(entries_addrs(rs) == head + rest);
    if rs[0].0@ == key {
        assert(head[j] == x);
        assert((head + rest)[j] == x);
    } else {
        lemma_entry_addr(rs.drop_first(), key, s, j);
        let k = choose|k: int| 0 <= k < rest.len() && rest[k] == x;
        assert((head + rest)[head.len() + k] == x);
    }
}

proof fn lemma_found_addr(env: EnvV, key: Seq<char>, snap: ReportSnapshot, j: int)
    requires
        loaded_for(env.main, env.reports, key) == Some(Loaded::Found(snap)),
        0 <= j < snap.cells@.len(),
    ensures
        all_addrs(env).contains(key + seq!['|'] + snap.cells@[j].cell_ref@),
{
    let mk = report_key_spec(env.main.report@, env.main.version@, env.main.org@, env.main.period@);
    let head = snap_addrs(mk, env.main.cells@);
    let rest = entries_addrs(env.reports);
    let x = key + seq!['|'] + snap.cells@[j].cell_ref@;
    if mk == key {
        assert(head[j] == x);
        assert((head + rest)[j] == x);
    } else {
        lemma_entry_addr(env.reports, key, snap, j);
        let k = choose|k: int| 0 <= k < rest.len() && rest[k] == x;
        assert((head + rest)[head.len() + k] == x);
    }
}

proof fn lemma_stack_bound(stack: Seq<Seq<char>>, all: Seq<Seq<char>>)
    requires
        stack.no_duplicates(),
        forall|i: int| 0 <= i < stack.len() ==> all.contains(#[trigger] stack[i]),
    ensures
        stack.len() <= all.len(),
{
    broadcast use vstd::seq_lib::seq_to_set_is_finite;

    stack.unique_seq_to_set();
    all.lemma_cardinality_of_set();
    assert forall|x: Seq<char>| stack.to_set().contains(x) implies all.to_set().contains(x) by {
        let i = choose|i: int| 0 <= i < stack.len() && stack[i] == x;
        assert(all.contains(stack[i]));
    }
    vstd::set_lib::lemma_len_subset(stack.to_set(), all.to_set());
}

// ----------------------------------------------------------------------------
// The walk
// ----------------------------------------------------------------------------
/// What stops a computation.
pub enum Need {
    /// A report (report, version, organisation, period) not asked for yet.
    Report(String, String, String, String),
    /// A batch of fetch keys not asked for yet.
    Amounts(Vec<BalanceKey>),
}

/// Why a computation did not finish.
pub enum Halt {
    /// An answer it needs is not there yet.
    Ask(Need),
    /// A formula's evaluation fails (decimal overflow, a function without its
    /// argument, an organisation chain with a cycle).
    Unevaluable,
}

/// The answer a stop asks for is not among the answers.
pub open spec fn unanswered(env: EnvV, n: Need) -> bool {
    match n {
        Need::Report(r, v, o, p) => loaded_for(env.main, env.reports, report_key_spec(r@, v@, o@, p@)) is None,
        Need::Amounts(ks) => first_batch(env.batches, keys_view(ks@)) is None,
    }
}

/// Need `n` is asked for by formula `ast` of cell `t` (in report `snap`), its
/// dependencies `d` taken in context `ctx`: a report it references, or the batch of
/// its fetch keys.
pub open spec fn asks_with(env: EnvV, t: RefV, ctx: EvalCtx, snap: ReportSnapshot, ast: NodeV, d: DepsV, n: Need) -> bool {
    &&& formula_of(env, t) == Some((snap, ast))
    &&& ctx_fits(ctx, snap, env)
    &&& deps_spec(ast, empty_scope(ctx)) == Some(d)
    &&& match n {
        Need::Report(a, b, c, e) => exists|i: int|
            0 <= i < d.2.len() && (a@, b@, c@, e@) == ((#[trigger] d.2[i]).0, d.2[i].1, d.2[i].2, d.2[i].3),
        Need::Amounts(ks) => d.0.len() > 0 && keys_view(ks@) == batch_request(d.0),
    }
}

/// Some formula of a loaded report asks for `n`.
pub open spec fn asked_by(env: EnvV, n: Need) -> bool {
    exists|t: RefV, ctx: EvalCtx, snap: ReportSnapshot, ast: NodeV, d: DepsV| #[trigger] asks_with(env, t, ctx, snap, ast, d, n)
}

/// Every answer some formula of a loaded report asks for is there.
pub open spec fn answered(env: EnvV) -> bool {
    forall|n: Need| #[trigger] asked_by(env, n) ==> !unanswered(env, n)
}

/// Formula `ast` of cell `t` (in report `snap`) cannot be evaluated over scope `sv`:
/// in its report's context its dependencies cannot be derived, or, with the amounts
/// answered for its fetch keys, its evaluation fails.
pub open spec fn fails_with(env: EnvV, t: RefV, snap: ReportSnapshot, ast: NodeV, sv: ScopeV) -> bool {
    &&& formula_of(env, t) == Some((snap, ast))
    &&& ctx_fits(sv.ctx, snap, env)
    &&& match deps_spec(ast, empty_scope(sv.ctx)) {
        None => true,
        Some(d) => sv.fields.len() == 0 && fetched(env.batches, d.0) == Some(amounts_view(sv.fetches)) && eval_spec(
            ast,
            sv,
        ) is None,
    }
}

/// Some formula of a loaded report cannot be evaluated.
pub open spec fn some_fails(env: EnvV) -> bool {
    exists|t: RefV, snap: ReportSnapshot, ast: NodeV, sv: ScopeV| #[trigger] fails_with(env, t, snap, ast, sv)
}

struct Inputs<'w> {
    main: &'w ReportSnapshot,
    world: &'w World,
    periods: &'w Vec<String>,
    org_parent: &'w Vec<(String, String)>,
}

impl<'w> View for Inputs<'w> {
    type V = EnvV;

    closed spec fn view(&self) -> EnvV {
        EnvV {
            main: *self.main,
            reports: self.world.reports@,
            batches: self.world.batches@,
            periods: self.periods@,
            org_parent: self.org_parent@,
        }
    }
}

struct Walk {
    /// (memo key, value) of every cell resolved so far.
    memo: Vec<(String, FValue)>,
    /// The cell each memo entry was computed for.
    cells: Ghost<Seq<RefV>>,
    /// The memo keys of the cells being resolved, outermost first.
    stack: Vec<String>,
    /// Readable errors.
    errors: Vec<String>,
}

/// `m2` is `m` with entries added at the end.
pub open spec fn grows<T>(m: Seq<T>, m2: Seq<T>) -> bool {
    m.len() <= m2.len() && m2.subrange(0, m.len() as int) == m
}

spec fn walk_ok(env: EnvV, w: Walk) -> bool {
    &&& memo_ok(env, w.memo@, w.cells@, views(w.errors@))
    &&& views(w.stack@).no_duplicates()
    &&& path_ok(env, views(w.stack@))
    &&& forall|i: int|
        0 <= i < w.stack@.len() ==> val_lookup(w.memo@, #[trigger] w.stack@[i]@) is None && all_addrs(env).contains(
            w.stack@[i]@,
        )
}

proof fn lemma_edge_dep(env: EnvV, t: RefV, ctx: EvalCtx, snap: ReportSnapshot, ast: NodeV, d: DepsV, i: int)
    requires
        formula_of(env, t) == Some((snap, ast)),
        ctx_fits(ctx, snap, env),
        deps_spec(ast, empty_scope(ctx)) == Some(d),
    ensures
        0 <= i < d.1.len() ==> edge(env, ref_addr(t), addr_key_spec(t.0, t.1, t.2, t.3, d.1[i])),
        0 <= i < d.2.len() ==> edge(env, ref_addr(t), ref_addr(d.2[i])),
{
    if 0 <= i < d.1.len() {
        let b = addr_key_spec(t.0, t.1, t.2, t.3, d.1[i]);
        assert(reads(d, t, b));
        assert(edge_with(env, t, ctx, snap, ast, d, ref_addr(t), b));
    }
    if 0 <= i < d.2.len() {
        assert(reads(d, t, ref_addr(d.2[i])));
        assert(edge_with(env, t, ctx, snap, ast, d, ref_addr(t), ref_addr(d.2[i])));
    }
}

proof fn lemma_path_push(env: EnvV, st: Seq<Seq<char>>, a: Seq<char>)
    requires
        path_ok(env, st),
        st.len() > 0 ==> edge(env, st.last(), a),
    ensures
        path_ok(env, st.push(a)),
{
    let p = st.push(a);
    assert forall|i: int| 0 <= i < p.len() - 1 implies #[trigger] edge(env, p[i], p[i + 1]) by {
        if i < st.len() - 1 {
            assert(p[i] == st[i] && p[i + 1] == st[i + 1]);
        } else {
            assert(p[i] == st.last() && p[i + 1] == a);
        }
    }
}

proof fn lemma_cut_on_cycle(env: EnvV, st: Seq<Seq<char>>, a: Seq<char>)
    requires
        path_ok(env, st),
        st.contains(a),
        st.len() > 0 ==> edge(env, st.last(), a),
    ensures
        on_cycle(env, a),
{
    let j = choose|j: int| 0 <= j < st.len() && st[j] == a;
    let q = st.subrange(j, st.len() as int);
    assert forall|i: int| 0 <= i < q.len() - 1 implies #[trigger] edge(env, q[i], q[i + 1]) by {
        assert(q[i] == st[j + i] && q[i + 1] == st[j + i + 1]);
    }
    assert(q.last() == st.last());
    lemma_path_push(env, q, a);
    let p = q.push(a);
    assert(p[0] == a);
    assert(path_ok(env, p) && p.len() >= 2 && p[0] == a && p.last() == a);
}

proof fn lemma_grows_trans<T>(a: Seq<T>, b: Seq<T>, c: Seq<T>)
    requires
        grows(a, b),
        grows(b, c),
    ensures
        grows(a, c),
{
    assert(c.subrange(0, a.len() as int) =~= b.subrange(0, a.len() as int));
}

proof fn lemma_dep_ok_grows(
    env: EnvV,
    m: Seq<(String, FValue)>,
    m2: Seq<(String, FValue)>,
    e: Seq<Seq<char>>,
    e2: Seq<Seq<char>>,
    u: RefV,
    v: FVal,
)
    requires
        grows(m, m2),
        grows(e, e2),
        dep_ok(env, m, e, u, v),
        val_lookup(m, ref_addr(u)) == Some(v) || val_lookup(m2, ref_addr(u)) is None,
    ensures
        dep_ok(env, m2, e2, u, v),
{
    if val_lookup(m, ref_addr(u)) == Some(v) {
        lemma_lookup_extend(m, m2, ref_addr(u));
    } else {
        let k = choose|k: int| 0 <= k < e.len() && e[k] == cycle_msg(u);
        assert(e2[k] == e[k]);
    }
}

proof fn lemma_grows_refl<T>(a: Seq<T>)
    ensures
        grows(a, a),
{
    assert(a.subrange(0, a.len() as int) =~= a);
}

proof fn lemma_views_push(e: Seq<String>, x: String)
    ensures
        views(e.push(x)) == views(e).push(x@),
        grows(views(e), views(e.push(x))),
{
    assert(views(e.push(x)) =~= views(e).push(x@));
    assert(views(e).push(x@).subrange(0, views(e).len() as int) =~= views(e));
}

fn memo_get<'a>(m: &'a Vec<(String, FValue)>, k: &str) -> (r: Option<&'a FValue>)
    ensures
        opt_val(match r {
            Some(x) => Some(*x),
            None => None,
        }) == val_lookup(m@, k@),
{
    let mut i: usize = 0;
    assert(m@.subrange(0, m@.len() as int) =~= m@);
    while i < m.len()
        invariant
            i <= m@.len(),
            val_lookup(m@, k@) == val_lookup(m@.subrange(i as int, m@.len() as int), k@),
        decreases m@.len() - i,
    {
        let ghost rest = m@.subrange(i as int, m@.len() as int);
        assert(rest[0] == m@[i as int]);
        assert(rest.subrange(1, rest.len() as int) =~= m@.subrange(i + 1, m@.len() as int));
        if str_eq(m[i].0.as_str(), k) {
            return Some(&m[i].1);
        }
        i = i + 1;
    }
    None
}

fn on_stack(stack: &Vec<String>, k: &str) -> (r: bool)
    ensures
        r == views(stack@).contains(k@),
{
    let mut i: usize = 0;
    while i < stack.len()
        invariant
            i <= stack@.len(),
            forall|j: int| 0 <= j < i ==> stack@[j]@ != k@,
        decreases stack@.len() - i,
    {
        if str_eq(stack[i].as_str(), k) {
            assert(views(stack@)[i as int] == k@);
            return true;
        }
        i = i + 1;
    }
    assert forall|j: int| 0 <= j < views(stack@).len() implies views(stack@)[j] != k@ by {
        assert(views(stack@)[j] == stack@[j]@);
    }
    false
}

fn has_key(cs: &Vec<(String, FValue)>, k: &str) -> (r: bool)
    ensures
        r == has_entry(cs@, k@),
{
    let mut i: usize = 0;
    while i < cs.len()
        invariant
            i <= cs@.len(),
            forall|j: int| 0 <= j < i ==> cs@[j].0@ != k@,
        decreases cs@.len() - i,
    {
        if str_eq(cs[i].0.as_str(), k) {
            return true;
        }
        i = i + 1;
    }
    false
}

fn clone_strings(v: &Vec<String>) -> (r: Vec<String>)
    ensures
        r@ == v@,
{
    let mut out: Vec<String> = Vec::new();
    let mut i: usize = 0;
    while i < v.len()
        invariant
            i <= v@.len(),
            out@ == v@.subrange(0, i as int),
        decreases v@.len() - i,
    {
        out.push(v[i].clone());
        assert(out@ =~= v@.subrange(0, i as int + 1));
        i = i + 1;
    }
    assert(v@.subrange(0, v@.len() as int) =~= v@);
    out
}

fn clone_pairs(v: &Vec<(String, String)>) -> (r: Vec<(String, String)>)
    ensures
        r@ == v@,
{
    let mut out: Vec<(String, String)> = Vec::new();
    let mut i: usize = 0;
    while i < v.len()
        invariant
            i <= v@.len(),
            out@ == v@.subrange(0, i as int),
        decreases v@.len() - i,
    {
        let a = v[i].0.clone();
        let b = v[i].1.clone();
        out.push((a, b));
        assert(out@ =~= v@.subrange(0, i as int + 1));
        i = i + 1;
    }
    assert(v@.subrange(0, v@.len() as int) =~= v@);
    out
}

fn ref_text() -> (r: FValue)
    ensures
        r@ == FVal::Error("#REF!"@),
{
    FValue::Error(copy_str("#REF!"))
}

proof fn lemma_lookup_push_other(m: Seq<(String, FValue)>, e: (String, FValue), k: Seq<char>)
    requires
        val_lookup(m, k) is None,
        e.0@ != k,
    ensures
        val_lookup(m.push(e), k) is None,
    decreases m.len(),
{
    let m2 = m.push(e);
    if m.len() > 0 {
        assert(m2[0] == m[0]);
        assert(m2.subrange(1, m2.len() as int) =~= m.subrange(1, m.len() as int).push(e));
        lemma_lookup_push_other(m.subrange(1, m.len() as int), e, k);
    } else {
        assert(m2.subrange(1, m2.len() as int) =~= Seq::<(String, FValue)>::empty());
        assert(val_lookup(m2.subrange(1, m2.len() as int), k) is None);
    }
}

/// Remembers the value of cell `t` under its memo key.
fn remember(Ghost(env): Ghost<EnvV>, w: &mut Walk, addr: String, value: FValue, Ghost(t): Ghost<RefV>)
    requires
        walk_ok(env, *old(w)),
        addr@ == ref_addr(t),
        val_lookup(old(w).memo@, addr@) is None,
        !views(old(w).stack@).contains(addr@),
        justified(env, t, value@, old(w).memo@, views(old(w).errors@)),
    ensures
        walk_ok(env, *final(w)),
        final(w).stack@ == old(w).stack@,
        final(w).errors@ == old(w).errors@,
        grows(old(w).memo@, final(w).memo@),
        grows(old(w).cells@, final(w).cells@),
        val_lookup(final(w).memo@, addr@) == Some(value@),
{
    let ghost m = w.memo@;
    let ghost e = (addr, value);
    proof {
        assert(m.push(e).subrange(0, m.len() as int) =~= m);
        lemma_memo_push(env, m, w.cells@, views(w.errors@), e, t);
        lemma_lookup_push_new(m, e);
        assert forall|i: int| 0 <= i < w.stack@.len() implies val_lookup(m.push(e), #[trigger] w.stack@[i]@) is None by {
            assert(views(w.stack@)[i] == w.stack@[i]@);
            lemma_lookup_push_other(m, e, w.stack@[i]@);
        }
        assert(m.push(e).subrange(0, m.len() as int) =~= m);
        assert(w.cells@.push(t).subrange(0, w.cells@.len() as int) =~= w.cells@);
    }
    w.memo.push((addr, value));
    w.cells = Ghost(w.cells@.push(t));
}

/// Records a readable error.
fn record(Ghost(env): Ghost<EnvV>, w: &mut Walk, msg: String)
    requires
        walk_ok(env, *old(w)),
    ensures
        walk_ok(env, *final(w)),
        final(w).memo@ == old(w).memo@,
        final(w).cells@ == old(w).cells@,
        final(w).stack@ == old(w).stack@,
        views(final(w).errors@) == views(old(w).errors@).push(msg@),
        grows(views(old(w).errors@), views(final(w).errors@)),
{
    proof {
        lemma_views_push(w.errors@, msg);
        lemma_memo_errs(env, w.memo@, w.cells@, views(w.errors@), views(w.errors@.push(msg)));
    }
    w.errors.push(msg);
}

proof fn lemma_lookup_push_new(m: Seq<(String, FValue)>, e: (String, FValue))
    requires
        val_lookup(m, e.0@) is None,
    ensures
        val_lookup(m.push(e), e.0@) == Some(e.1@),
    decreases m.len(),
{
    let m2 = m.push(e);
    if m.len() > 0 {
        assert(m2[0] == m[0]);
        assert(m2.subrange(1, m2.len() as int) =~= m.subrange(1, m.len() as int).push(e));
        lemma_lookup_push_new(m.subrange(1, m.len() as int), e);
    }
}

fn stored_value(s: &Option<FValue>) -> (r: FValue)
    ensures
        r@ == stored_or_null(*s),
{
    match s {
        Some(v) => v.clone(),
        None => FValue::Null,
    }
}

/// Resolves cell `c` of report `r` (version `v`, organisation `o`, period `p`):
/// its memoised value, `#REF!` where it is already being resolved (a cycle), else
/// its value computed and memoised.
#[verifier::spinoff_prover]
#[verifier::rlimit(40)]
fn resolve(env: &Inputs, w: &mut Walk, r: &str, v: &str, o: &str, p: &str, c: &str) -> (res: Result<FValue, Halt>)
    requires
        walk_ok(env@, *old(w)),
        old(w).stack@.len() > 0 ==> edge(env@, old(w).stack@.last()@, addr_key_spec(r@, v@, o@, p@, c@)),
    ensures
        res is Ok ==> walk_ok(env@, *final(w)) && final(w).stack@ == old(w).stack@ && grows(old(w).memo@, final(w).memo@)
            && grows(old(w).cells@, final(w).cells@) && grows(views(old(w).errors@), views(final(w).errors@)),
        res matches Ok(x) ==> dep_ok(env@, final(w).memo@, views(final(w).errors@), (r@, v@, o@, p@, c@), x@),
        res matches Ok(x) ==> (!views(old(w).stack@).contains(addr_key_spec(r@, v@, o@, p@, c@)) ==> val_lookup(
            final(w).memo@,
            addr_key_spec(r@, v@, o@, p@, c@),
        ) == Some(x@)),
        res matches Err(Halt::Ask(n)) ==> unanswered(env@, n),
        res matches Err(Halt::Ask(n)) ==> asked_by(env@, n) || (n matches Need::Report(a, b, cc, e) && a@ == r@ && b@
            == v@ && cc@ == o@ && e@ == p@),
        res is Err && (res matches Err(Halt::Unevaluable)) ==> some_fails(env@),
    decreases all_addrs(env@).len() - old(w).stack@.len(), 1int,
{
    let addr = addr_key(r, v, o, p, c);
    let ghost t: RefV = (r@, v@, o@, p@, c@);
    assert(grows(w.memo@, w.memo@)) by {
        assert(w.memo@.subrange(0, w.memo@.len() as int) =~= w.memo@);
    }
    assert(grows(w.cells@, w.cells@)) by {
        assert(w.cells@.subrange(0, w.cells@.len() as int) =~= w.cells@);
    }
    proof {
        lemma_grows_refl(views(w.errors@));
    }
    match memo_get(&w.memo, addr.as_str()) {
        Some(x) => {
            return Ok(x.clone());
        },
        None => {},
    }
    if on_stack(&w.stack, addr.as_str()) {
        let mut msg = copy_str("循环引用: ");
        append_str(&mut msg, r);
        append_str(&mut msg, "!");
        append_str(&mut msg, c);
        append_str(&mut msg, " (");
        append_str(&mut msg, o);
        append_str(&mut msg, "/");
        append_str(&mut msg, p);
        append_str(&mut msg, ")");
        assert(msg@ == cycle_msg(t));
        let ghost e0 = views(w.errors@);
        record(Ghost(env@), w, msg);
        proof {
            lemma_cut_on_cycle(env@, views(w.stack@), addr@);
            assert(views(w.errors@)[e0.len() as int] == cycle_msg(t));
        }
        return Ok(ref_text());
    }
    let rk = report_key(r, v, o, p);
    let mk = report_key(env.main.report.as_str(), env.main.version.as_str(), env.main.org.as_str(), env.main.period.as_str());
    let snap: &ReportSnapshot = if str_eq(mk.as_str(), rk.as_str()) {
        env.main
    } else {
        match find_loaded(&env.world.reports, rk.as_str()) {
            None => {
                return Err(Halt::Ask(Need::Report(copy_str(r), copy_str(v), copy_str(o), copy_str(p))));
            },
            Some(Loaded::Found(s)) => s,
            Some(Loaded::Missing) => {
                let value = ref_text();
                remember(Ghost(env@), w, addr, value.clone(), Ghost(t));
                return Ok(value);
            },
            Some(Loaded::Failed(e)) => {
                let mut msg = copy_str("装载报表失败 ");
                append_str(&mut msg, r);
                append_str(&mut msg, ": ");
                append_str(&mut msg, e.as_str());
                record(Ghost(env@), w, msg);
                let value = ref_text();
                remember(Ghost(env@), w, addr, value.clone(), Ghost(t));
                return Ok(value);
            },
        }
    };
    assert(loaded_for(env@.main, env@.reports, report_key_spec(r@, v@, o@, p@)) == Some(Loaded::Found(*snap)));
    let ghost m_in = w.memo@;
    let value: FValue = match snap.find_cell(c) {
        None => FValue::Null,
        Some(ci) => {
            let f = if ci.is_manual {
                None
            } else {
                snap.effective_formula(ci)
            };
            match f {
                None => stored_value(&ci.stored),
                Some(f) => match parse(f.as_str()) {
                    Err(_) => {
                        let mut msg = copy_str(r);
                        append_str(&mut msg, "!");
                        append_str(&mut msg, c);
                        append_str(&mut msg, " 公式解析失败");
                        record(Ghost(env@), w, msg);
                        FValue::Error(copy_str("#FORMULA!"))
                    },
                    Ok(ast) => {
                        let ghost s0 = w.stack@;
                        proof {
                            let i = cell_index(snap.cells@, c@);
                            lemma_cell_index(snap.cells@, c@);
                            lemma_found_addr(env@, report_key_spec(r@, v@, o@, p@), *snap, i);
                            assert(addr@ =~= report_key_spec(r@, v@, o@, p@) + seq!['|'] + c@);
                            assert(views(s0.push(addr)) =~= views(s0).push(addr@));
                        }
                        w.stack.push(addr.clone());
                        proof {
                            lemma_path_push(env@, views(s0), addr@);
                            assert(views(w.stack@).no_duplicates());
                            assert(formula_of(env@, t) == Some((*snap, node_view(ast))));
                            lemma_stack_bound(views(w.stack@), all_addrs(env@));
                        }
                        let res = eval_formula(env, w, snap, &ast, r, v, o, p, Ghost(t));
                        match res {
                            Ok(x) => {
                                w.stack.pop();
                                proof {
                                    assert(w.stack@ =~= s0);
                                    assert(val_lookup(w.memo@, addr@) is None);
                                }
                                x
                            },
                            Err(h) => {
                                return Err(h);
                            },
                        }
                    },
                },
            }
        },
    };
    let ghost mv = w.memo@;
    let ghost cv = w.cells@;
    assert(grows(old(w).memo@, mv));
    assert(grows(old(w).cells@, cv));
    assert(justified(env@, t, value@, w.memo@, views(w.errors@)));
    assert(grows(views(old(w).errors@), views(w.errors@)));
    remember(Ghost(env@), w, addr, value.clone(), Ghost(t));
    proof {
        lemma_grows_trans(old(w).memo@, mv, w.memo@);
        lemma_grows_trans(old(w).cells@, cv, w.cells@);
    }
    Ok(value)
}

/// Evaluates formula `ast` of report `snap` (report `r`, version `v`, organisation
/// `o`, period `p`): the amounts answered for its fetch keys, then each cell it reads
/// resolved, then the formula over them.
#[verifier::spinoff_prover]
#[verifier::rlimit(60)]
fn eval_formula(
    env: &Inputs,
    w: &mut Walk,
    snap: &ReportSnapshot,
    ast: &Node,
    r: &str,
    v: &str,
    o: &str,
    p: &str,
    Ghost(t): Ghost<RefV>,
) -> (res: Result<FValue, Halt>)
    requires
        walk_ok(env@, *old(w)),
        t.0 == r@,
        t.1 == v@,
        t.2 == o@,
        t.3 == p@,
        old(w).stack@.len() > 0,
        old(w).stack@.last()@ == ref_addr(t),
        formula_of(env@, t) == Some((*snap, node_view(*ast))),
    ensures
        res is Ok ==> walk_ok(env@, *final(w)) && final(w).stack@ == old(w).stack@ && grows(old(w).memo@, final(w).memo@)
            && grows(old(w).cells@, final(w).cells@) && grows(views(old(w).errors@), views(final(w).errors@)),
        res matches Ok(x) ==> exists|sv: ScopeV| formula_value(env@, t, *snap, node_view(*ast), sv, final(w).memo@, views(final(w).errors@), x@),
        res matches Err(Halt::Ask(n)) ==> unanswered(env@, n),
        res matches Err(Halt::Ask(n)) ==> asked_by(env@, n),
        res is Err && (res matches Err(Halt::Unevaluable)) ==> some_fails(env@),
    decreases all_addrs(env@).len() - old(w).stack@.len(), 2int,
{
    let ctx = EvalCtx {
        org: snap.org.clone(),
        period: snap.period.clone(),
        periods: clone_strings(env.periods),
        org_parent: clone_pairs(env.org_parent),
    };
    let deps = {
        let probe = Scope::new(&ctx);
        match try_deps(ast, &probe) {
            Some(d) => d,
            None => {
                proof {
                    assert(fails_with(env@, t, *snap, node_view(*ast), empty_scope(ctx)));
                }
                return Err(Halt::Unevaluable);
            },
        }
    };
    let ghost d = deps@;
    proof {
        lemma_grows_refl(views(w.errors@));
    }
    let mut fetches: Vec<(BalanceKey, Dec)> = Vec::new();
    if deps.fetches.len() > 0 {
        let req = request_of(&deps.fetches);
        match find_batch(&env.world.batches, &req) {
            None => {
                proof {
                    assert(asks_with(env@, t, ctx, *snap, node_view(*ast), d, Need::Amounts(req)));
                }
                return Err(Halt::Ask(Need::Amounts(req)));
            },
            Some(Ok(m)) => {
                fetches = copy_amounts(m);
            },
            Some(Err(e)) => {
                let mut msg = copy_str("取数失败: ");
                append_str(&mut msg, e.as_str());
                record(Ghost(env@), w, msg);
            },
        }
    } else {
        assert(amounts_view(fetches@) =~= Seq::<(KeyV, Dec)>::empty());
    }
    assert(fetched(env@.batches, d.0) == Some(amounts_view(fetches@)));
    let ghost m0 = w.memo@;
    let ghost c0 = w.cells@;
    assert(grows(m0, m0)) by {
        assert(m0.subrange(0, m0.len() as int) =~= m0);
    }
    assert(grows(c0, c0)) by {
        assert(c0.subrange(0, c0.len() as int) =~= c0);
    }
    let mut cells: Vec<(String, FValue)> = Vec::new();
    let mut i: usize = 0;
    while i < deps.cells.len()
        invariant
            walk_ok(env@, *w),
            w.stack@ == old(w).stack@,
            grows(m0, w.memo@),
            grows(c0, w.cells@),
            grows(views(old(w).errors@), views(w.errors@)),
            d == deps@,
            old(w).stack@.len() > 0,
            old(w).stack@.last()@ == ref_addr(t),
            formula_of(env@, t) == Some((*snap, node_view(*ast))),
            ctx_fits(ctx, *snap, env@),
            deps_spec(node_view(*ast), empty_scope(ctx)) == Some(d),
            i <= deps.cells@.len(),
            t.0 == r@,
            t.1 == v@,
            t.2 == o@,
            t.3 == p@,
            cells_read(env@, cells@, d.1, t, w.memo@, views(w.errors@)),
            cells_live(cells@, t, w.memo@, views(w.stack@)),
            forall|j: int| 0 <= j < i ==> has_entry(cells@, #[trigger] d.1[j]),
        decreases deps.cells@.len() - i,
    {
        assert(d.1[i as int] == deps.cells@[i as int]@);
        if !has_key(&cells, deps.cells[i].as_str()) {
            let ghost mb = w.memo@;
            let ghost cb = w.cells@;
            let ghost eb = views(w.errors@);
            proof {
                lemma_edge_dep(env@, t, ctx, *snap, node_view(*ast), d, i as int);
            }
            let x = match resolve(env, w, r, v, o, p, deps.cells[i].as_str()) {
                Ok(x) => x,
                Err(h) => {
                    proof {
                        assert(loaded_for(env@.main, env@.reports, report_key_spec(r@, v@, o@, p@)) is Some);
                    }
                    return Err(h);
                },
            };
            proof {
                lemma_grows_trans(m0, mb, w.memo@);
                lemma_grows_trans(c0, cb, w.cells@);
                lemma_grows_trans(views(old(w).errors@), eb, views(w.errors@));
                lemma_reads_step(env@, cells@, d.1, t, Seq::empty(), d.2, mb, w.memo@, eb, views(w.errors@), w.stack@);
            }
            let ghost before = cells@;
            cells.push((deps.cells[i].clone(), x));
            proof {
                assert(cells@[before.len() as int].0@ == d.1[i as int]);
                assert(d.1.contains(cells@[before.len() as int].0@));
                assert forall|j: int| 0 <= j <= i implies has_entry(cells@, #[trigger] d.1[j]) by {
                    if j < i {
                        assert(has_entry(before, d.1[j]));
                        let k = choose|k: int| 0 <= k < before.len() && before[k].0@ == d.1[j];
                        assert(cells@[k] == before[k]);
                    } else {
                        assert(cells@[before.len() as int].0@ == d.1[j]);
                    }
                }
                assert forall|k: int| 0 <= k < cells@.len() implies #[trigger] d.1.contains(cells@[k].0@) && dep_ok(env@, 
                    w.memo@,
                    views(w.errors@),
                    (t.0, t.1, t.2, t.3, cells@[k].0@),
                    cells@[k].1@,
                ) by {
                    if k < before.len() {
                        assert(cells@[k] == before[k]);
                        assert(d.1.contains(before[k].0@));
                    }
                }
                assert forall|k: int|
                    #![trigger cells@[k]]
                    0 <= k < cells@.len() implies val_lookup(w.memo@, ref_addr((t.0, t.1, t.2, t.3, cells@[k].0@))) == Some(
                        cells@[k].1@,
                    ) || views(w.stack@).contains(ref_addr((t.0, t.1, t.2, t.3, cells@[k].0@))) by {
                    if k < before.len() {
                        assert(cells@[k] == before[k]);
                    }
                }
            }
        } else {
            proof {
                assert forall|j: int| 0 <= j <= i implies has_entry(cells@, #[trigger] d.1[j]) by {
                    if j == i {
                        assert(has_entry(cells@, deps.cells@[i as int]@));
                    }
                }
            }
        }
        i = i + 1;
    }
    assert(d.1.len() == deps.cells@.len());
    let mut refs: Vec<(String, FValue)> = Vec::new();
    let mut j: usize = 0;
    while j < deps.refs.len()
        invariant
            walk_ok(env@, *w),
            w.stack@ == old(w).stack@,
            grows(m0, w.memo@),
            grows(c0, w.cells@),
            grows(views(old(w).errors@), views(w.errors@)),
            d == deps@,
            old(w).stack@.len() > 0,
            old(w).stack@.last()@ == ref_addr(t),
            formula_of(env@, t) == Some((*snap, node_view(*ast))),
            ctx_fits(ctx, *snap, env@),
            deps_spec(node_view(*ast), empty_scope(ctx)) == Some(d),
            j <= deps.refs@.len(),
            refs@.len() == j,
            t.0 == r@,
            t.1 == v@,
            t.2 == o@,
            t.3 == p@,
            cells_read(env@, cells@, d.1, t, w.memo@, views(w.errors@)),
            forall|jj: int| 0 <= jj < d.1.len() ==> has_entry(cells@, #[trigger] d.1[jj]),
            refs_read(env@, refs@, d.2, w.memo@, views(w.errors@)),
            cells_live(cells@, t, w.memo@, views(w.stack@)),
            refs_live(refs@, d.2, w.memo@, views(w.stack@)),
        decreases deps.refs@.len() - j,
    {
        let target = &deps.refs[j];
        assert(d.2[j as int] == (target.0@, target.1@, target.2@, target.3@, target.4@));
        let ghost mb = w.memo@;
        let ghost cb = w.cells@;
        let ghost eb = views(w.errors@);
        proof {
            lemma_edge_dep(env@, t, ctx, *snap, node_view(*ast), d, j as int);
        }
        let x = match resolve(
            env,
            w,
            target.0.as_str(),
            target.1.as_str(),
            target.2.as_str(),
            target.3.as_str(),
            target.4.as_str(),
        ) {
            Ok(x) => x,
            Err(h) => {
                proof {
                    if h is Ask {
                        let n = h->Ask_0;
                        if !asked_by(env@, n) {
                            assert(asks_with(env@, t, ctx, *snap, node_view(*ast), d, n));
                        }
                    }
                }
                return Err(h);
            },
        };
        let key = addr_key(target.0.as_str(), target.1.as_str(), target.2.as_str(), target.3.as_str(), target.4.as_str());
        proof {
            lemma_grows_trans(m0, mb, w.memo@);
            lemma_grows_trans(c0, cb, w.cells@);
            lemma_grows_trans(views(old(w).errors@), eb, views(w.errors@));
            lemma_reads_step(env@, cells@, d.1, t, refs@, d.2, mb, w.memo@, eb, views(w.errors@), w.stack@);
        }
        let ghost before = refs@;
        refs.push((key, x));
        proof {
            assert forall|k: int| #![trigger refs@[k]] 0 <= k < refs@.len() implies refs@[k].0@ == ref_addr(d.2[k]) && dep_ok(env@, 
                w.memo@,
                views(w.errors@),
                d.2[k],
                refs@[k].1@,
            ) by {
                if k < before.len() {
                    assert(refs@[k] == before[k]);
                    assert(before[k].0@ == ref_addr(d.2[k]) && dep_ok(env@, w.memo@, views(w.errors@), d.2[k], before[k].1@));
                }
            }
            assert forall|k: int|
                #![trigger refs@[k]]
                0 <= k < refs@.len() implies val_lookup(w.memo@, ref_addr(d.2[k])) == Some(refs@[k].1@) || views(
                    w.stack@,
                ).contains(ref_addr(d.2[k])) by {
                if k < before.len() {
                    assert(refs@[k] == before[k]);
                }
            }
        }
        j = j + 1;
    }
    let scope = Scope { fields: Vec::new(), cells, fetches, refs, ctx: &ctx };
    assert(ctx_fits(ctx, *snap, env@));
    assert(cells_fit(env@, scope@.cells, d.1, t, w.memo@, views(w.errors@)));
    assert(refs_fit(env@, scope@.refs, d.2, w.memo@, views(w.errors@)));
    match try_eval(ast, &scope) {
        Some(x) => {
            assert(formula_value(env@, t, *snap, node_view(*ast), scope@, w.memo@, views(w.errors@), x@));
            Ok(x)
        },
        None => {
            proof {
                assert(fails_with(env@, t, *snap, node_view(*ast), scope@));
            }
            Err(Halt::Unevaluable)
        },
    }
}


// ----------------------------------------------------------------------------
// Computing a report
// ----------------------------------------------------------------------------
/// Everything computing `snapshot` reads, as plain values.
pub open spec fn env_of(
    snapshot: ReportSnapshot,
    world: World,
    periods: Seq<String>,
    org_parent: Seq<(String, String)>,
) -> EnvV {
    EnvV { main: snapshot, reports: world.reports@, batches: world.batches@, periods, org_parent }
}

/// A cell that is recomputed: not manual, with a formula.
pub open spec fn is_target(elem: Seq<(String, String)>, ci: CellInput) -> bool {
    !ci.is_manual && effective_spec(elem, ci) is Some
}

/// The recomputed cells, in order.
pub open spec fn targets(cells: Seq<CellInput>, elem: Seq<(String, String)>) -> Seq<CellInput>
    decreases cells.len(),
{
    if cells.len() == 0 {
        Seq::empty()
    } else if is_target(elem, cells.last()) {
        targets(cells.drop_last(), elem).push(cells.last())
    } else {
        targets(cells.drop_last(), elem)
    }
}

/// How many computed cells hold an error.
pub open spec fn error_cells(cs: Seq<ComputedCell>) -> nat
    decreases cs.len(),
{
    if cs.len() == 0 {
        0
    } else {
        error_cells(cs.drop_last()) + if cs.last().value@ is Error {
            1nat
        } else {
            0nat
        }
    }
}

/// A computed cell written back for recomputed cell `target` of `snap`.
pub open spec fn written_for(snap: ReportSnapshot, target: CellInput, cc: ComputedCell) -> bool {
    &&& cc.report@ == snap.report@
    &&& cc.version@ == snap.version@
    &&& cc.org@ == snap.org@
    &&& cc.period@ == snap.period@
    &&& cc.cell_ref@ == target.cell_ref@
    &&& cc.status@ == (if cc.value@ is Error {
        "error"@
    } else {
        "computed"@
    })
}

/// The outcome of computing `env.main`: one computed cell per recomputed cell, in
/// order, each holding the memoised value of that cell in some consistent memo whose
/// every cut cycle has its message in the outcome's errors; the error and computed
/// counts.
pub open spec fn outcome_ok(env: EnvV, out: ComputeOutcome) -> bool {
    let ts = targets(env.main.cells@, env.main.element_formulas@);
    &&& out.cells@.len() == ts.len()
    &&& forall|k: int| 0 <= k < ts.len() ==> written_for(env.main, ts[k], #[trigger] out.cells@[k])
    &&& exists|memo: Seq<(String, FValue)>, keys: Seq<RefV>|
        {
            &&& memo_ok(env, memo, keys, views(out.errors@))
            &&& forall|k: int|
                0 <= k < out.cells@.len() ==> val_lookup(
                    memo,
                    addr_key_spec(
                        env.main.report@,
                        env.main.version@,
                        env.main.org@,
                        env.main.period@,
                        (#[trigger] out.cells@[k]).cell_ref@,
                    ),
                ) == Some(out.cells@[k].value@)
        }
    &&& out.error_count == error_cells(out.cells@)
    &&& out.computed + out.error_count == out.cells@.len()
}

/// What a computed report holds: one cell per recomputed cell of the report, in
/// order and under its reference (manual cells and cells without formula never
/// appear); each cell's status is `error` exactly when its value is an error and
/// `computed` otherwise; the computed and error counts add up to the cells.
pub proof fn lemma_outcome_cells(env: EnvV, out: ComputeOutcome)
    requires
        outcome_ok(env, out),
    ensures
        out.cells@.map_values(|c: ComputedCell| c.cell_ref@) == targets(env.main.cells@, env.main.element_formulas@).map_values(
            |ci: CellInput| ci.cell_ref@,
        ),
        forall|k: int|
            0 <= k < out.cells@.len() ==> ((#[trigger] out.cells@[k]).status@ == "error"@ <==> out.cells@[k].value@ is Error),
        forall|k: int|
            0 <= k < out.cells@.len() ==> ((#[trigger] out.cells@[k]).status@ == "computed"@ <==> !(out.cells@[k].value@ is Error)),
        out.computed + out.error_count == out.cells@.len(),
{
    reveal_strlit("error");
    reveal_strlit("computed");
    let ts = targets(env.main.cells@, env.main.element_formulas@);
    let a = out.cells@.map_values(|c: ComputedCell| c.cell_ref@);
    let b = ts.map_values(|ci: CellInput| ci.cell_ref@);
    assert forall|k: int| 0 <= k < a.len() implies #[trigger] a[k] == b[k] by {
        assert(written_for(env.main, ts[k], out.cells@[k]));
    }
    assert(a =~= b);
    assert forall|k: int| 0 <= k < out.cells@.len() implies ((#[trigger] out.cells@[k]).status@ == "error"@
        <==> out.cells@[k].value@ is Error) && (out.cells@[k].status@ == "computed"@ <==> !(out.cells@[k].value@ is Error)) by {
        assert(written_for(env.main, ts[k], out.cells@[k]));
        assert("error"@ != "computed"@) by {
            assert("error"@.len() != "computed"@.len());
        }
    }
}

/// Computes every recomputed cell of `snapshot` (not manual, with a formula) from the
/// answers gathered in `world`. Stops with the first answer it still needs (the
/// caller gets it and computes again), or where a formula cannot be evaluated.
pub fn compute_report(
    snapshot: &ReportSnapshot,
    world: &World,
    periods: &Vec<String>,
    org_parent: &Vec<(String, String)>,
) -> (r: Result<ComputeOutcome, Halt>)
    ensures
        r matches Ok(out) ==> outcome_ok(env_of(*snapshot, *world, periods@, org_parent@), out),
        r matches Err(Halt::Ask(n)) ==> unanswered(env_of(*snapshot, *world, periods@, org_parent@), n),
        r matches Err(Halt::Ask(n)) ==> asked_by(env_of(*snapshot, *world, periods@, org_parent@), n),
        r is Err && (r matches Err(Halt::Unevaluable)) ==> some_fails(env_of(*snapshot, *world, periods@, org_parent@)),
        answered(env_of(*snapshot, *world, periods@, org_parent@)) && !some_fails(
            env_of(*snapshot, *world, periods@, org_parent@),
        ) ==> r is Ok,
{
    let env = Inputs { main: snapshot, world, periods, org_parent };
    let ghost ev = env_of(*snapshot, *world, periods@, org_parent@);
    assert(env@ == ev);
    let mut w = Walk { memo: Vec::new(), cells: Ghost(Seq::empty()), stack: Vec::new(), errors: Vec::new() };
    assert(views(w.stack@) =~= Seq::<Seq<char>>::empty());
    assert(walk_ok(ev, w));
    let mut out = ComputeOutcome { cells: Vec::new(), errors: Vec::new(), computed: 0, error_count: 0 };
    let ghost elem = snapshot.element_formulas@;
    let ghost all = snapshot.cells@;
    assert(all.subrange(0, 0) =~= Seq::<CellInput>::empty());
    let mut i: usize = 0;
    while i < snapshot.cells.len()
        invariant
            env@ == ev,
            ev == env_of(*snapshot, *world, periods@, org_parent@),
            ev.main == *snapshot,
            elem == snapshot.element_formulas@,
            all == snapshot.cells@,
            walk_ok(ev, w),
            w.stack@.len() == 0,
            i <= all.len(),
            out.cells@.len() == targets(all.subrange(0, i as int), elem).len(),
            out.cells@.len() <= i,
            forall|k: int|
                0 <= k < out.cells@.len() ==> written_for(
                    *snapshot,
                    targets(all.subrange(0, i as int), elem)[k],
                    #[trigger] out.cells@[k],
                ),
            forall|k: int|
                0 <= k < out.cells@.len() ==> val_lookup(
                    w.memo@,
                    addr_key_spec(
                        snapshot.report@,
                        snapshot.version@,
                        snapshot.org@,
                        snapshot.period@,
                        (#[trigger] out.cells@[k]).cell_ref@,
                    ),
                ) == Some(out.cells@[k].value@),
            out.error_count == error_cells(out.cells@),
            out.computed + out.error_count == out.cells@.len(),
        decreases all.len() - i,
    {
        let ci = &snapshot.cells[i];
        let ghost pre = all.subrange(0, i as int + 1);
        assert(pre.drop_last() =~= all.subrange(0, i as int));
        assert(pre.last() == *ci);
        let target = !ci.is_manual && snapshot.effective_formula(ci).is_some();
        assert(target == is_target(elem, *ci));
        if target {
            let ghost mb = w.memo@;
            let ghost before = out.cells@;
            let ghost ts = targets(all.subrange(0, i as int), elem);
            let value = match resolve(
                &env,
                &mut w,
                snapshot.report.as_str(),
                snapshot.version.as_str(),
                snapshot.org.as_str(),
                snapshot.period.as_str(),
                ci.cell_ref.as_str(),
            ) {
                Ok(x) => x,
                Err(h) => {
                    proof {
                        assert(loaded_for(ev.main, ev.reports, report_key_spec(snapshot.report@, snapshot.version@, snapshot.org@, snapshot.period@)) is Some);
                        if h is Ask {
                            let n = h->Ask_0;
                            assert(asked_by(ev, n));
                            assert(unanswered(ev, n));
                        }
                    }
                    return Err(h);
                },
            };
            assert(views(Seq::<String>::empty()) =~= Seq::<Seq<char>>::empty());
            let is_err = value.is_error();
            let status = if is_err {
                copy_str("error")
            } else {
                copy_str("computed")
            };
            let cc = ComputedCell {
                report: snapshot.report.clone(),
                version: snapshot.version.clone(),
                org: snapshot.org.clone(),
                period: snapshot.period.clone(),
                cell_ref: ci.cell_ref.clone(),
                value,
                status,
            };
            out.cells.push(cc);
            if is_err {
                out.error_count = out.error_count + 1;
            } else {
                out.computed = out.computed + 1;
            }
            proof {
                assert(out.cells@.drop_last() =~= before);
                assert(targets(pre, elem) == ts.push(*ci));
                assert forall|k: int| 0 <= k < out.cells@.len() implies written_for(
                    *snapshot,
                    targets(pre, elem)[k],
                    #[trigger] out.cells@[k],
                ) by {
                    if k < before.len() {
                        assert(out.cells@[k] == before[k]);
                    }
                }
                assert forall|k: int| 0 <= k < out.cells@.len() implies val_lookup(
                    w.memo@,
                    addr_key_spec(
                        snapshot.report@,
                        snapshot.version@,
                        snapshot.org@,
                        snapshot.period@,
                        (#[trigger] out.cells@[k]).cell_ref@,
                    ),
                ) == Some(out.cells@[k].value@) by {
                    if k < before.len() {
                        assert(out.cells@[k] == before[k]);
                        lemma_lookup_extend(
                            mb,
                            w.memo@,
                            addr_key_spec(
                                snapshot.report@,
                                snapshot.version@,
                                snapshot.org@,
                                snapshot.period@,
                                before[k].cell_ref@,
                            ),
                        );
                    }
                }
            }
        }
        i = i + 1;
    }
    assert(all.subrange(0, all.len() as int) =~= all);
    out.errors = w.errors;
    assert(memo_ok(ev, w.memo@, w.cells@, views(out.errors@)));
    Ok(out)
}


// ----------------------------------------------------------------------------
// A fixed answerer
// ----------------------------------------------------------------------------
/// Answers without a data source: amounts by object (a default for the rest), and
/// no report other than the one computed.
pub struct MockProvider {
    /// (object, amount).
    pub balances: Vec<(String, Dec)>,
    pub default: Dec,
}

/// The amount filed first under an object, else the default.
pub open spec fn mock_amount(bs: Seq<(String, Dec)>, obj: Seq<char>, dflt: Dec) -> Dec
    decreases bs.len(),
{
    if bs.len() == 0 {
        dflt
    } else if bs[0].0@ == obj {
        bs[0].1
    } else {
        mock_amount(bs.drop_first(), obj, dflt)
    }
}

impl Default for MockProvider {
    /// No amounts; every key reads 1234.
    fn default() -> (r: Self)
        ensures
            r.balances@.len() == 0,
            r.default.val() == 1234 * crate::decimal::pow10(28),
    {
        let d = Dec::from_i64(1234);
        MockProvider { balances: Vec::new(), default: d }
    }
}

impl MockProvider {
    /// The amount of each key, by its object, in the keys' order.
    pub fn batch_balance(&self, keys: &Vec<BalanceKey>) -> (r: Vec<(BalanceKey, Dec)>)
        ensures
            r@.len() == keys@.len(),
            forall|i: int|
                0 <= i < keys@.len() ==> (#[trigger] r@[i]).0@ == keys@[i]@ && r@[i].1 == mock_amount(
                    self.balances@,
                    keys@[i].object@,
                    self.default,
                ),
    {
        let mut out: Vec<(BalanceKey, Dec)> = Vec::new();
        let mut i: usize = 0;
        while i < keys.len()
            invariant
                i <= keys@.len(),
                out@.len() == i,
                forall|j: int|
                    0 <= j < i ==> (#[trigger] out@[j]).0@ == keys@[j]@ && out@[j].1 == mock_amount(
                        self.balances@,
                        keys@[j].object@,
                        self.default,
                    ),
            decreases keys@.len() - i,
        {
            let mut a = self.default;
            let mut k: usize = self.balances.len();
            while k > 0
                invariant
                    i < keys@.len(),
                    k <= self.balances@.len(),
                    a == mock_amount(self.balances@.skip(k as int), keys@[i as int].object@, self.default),
                decreases k,
            {
                k = k - 1;
                let ghost rest = self.balances@.skip(k as int);
                assert(rest.drop_first() =~= self.balances@.skip(k + 1));
                assert(rest[0] == self.balances@[k as int]);
                if str_eq(self.balances[k].0.as_str(), keys[i].object.as_str()) {
                    a = self.balances[k].1;
                }
            }
            assert(self.balances@.skip(0) =~= self.balances@);
            out.push((copy_key(&keys[i]), a));
            i = i + 1;
        }
        out
    }

    /// No other report exists.
    pub fn load_report(&self, report: &str, version: &str, org: &str, period: &str) -> (r: Loaded)
        ensures
            r is Missing,
    {
        Loaded::Missing
    }
}

} // verus!
