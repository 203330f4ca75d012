//! Evaluation of formulas over a scope that already holds every outside value
//! (fetched balances, cell values, referenced cells), and the derivation of the keys
//! those values are filed under (shared by collection and lookup).
use vstd::prelude::*;
use crate::decimal::{
    Dec, dec_add_result, dec_sub_result, dec_mul_result, dec_div_result, dec_round_result, dec_to_i64,
    dec_to_u32, dec_checked_add, dec_checked_sub, dec_checked_mul, dec_checked_div, dec_round_dp, trunc_int,
};
use crate::formula::ast::{Node, NodeV, node_view, nodes_view};
use crate::formula::cells::{expand_range, expand_range_spec, range_ok};
use crate::formula::value::{FValue, FVal, as_num_spec, as_bool_spec, as_text_spec, is_empty_spec};
use crate::text::{copy_str, push_char, append_str, str_eq, lower_string, lower_seq, upper_string, upper_seq};

verus! {

/// The evaluation context: current organisation and period, the ordered leaf periods
/// (for relative periods) and the organisation parents (for `@parent`/`@root`).
#[derive(Debug, Clone, Default)]
pub struct EvalCtx {
    pub org: String,
    pub period: String,
    /// Leaf periods in ascending order.
    pub periods: Vec<String>,
    /// (organisation, parent).
    pub org_parent: Vec<(String, String)>,
}

/// The first value filed under a key.
pub open spec fn str_lookup(m: Seq<(String, String)>, k: Seq<char>) -> Option<Seq<char>>
    decreases m.len(),
{
    if m.len() == 0 {
        None
    } else if m[0].0@ == k {
        Some(m[0].1@)
    } else {
        str_lookup(m.subrange(1, m.len() as int), k)
    }
}

/// The first index of a period.
pub open spec fn period_index(ps: Seq<String>, p: Seq<char>) -> int
    decreases ps.len(),
{
    if ps.len() == 0 {
        -1
    } else if ps[0]@ == p {
        0
    } else {
        let i = period_index(ps.subrange(1, ps.len() as int), p);
        if i < 0 {
            -1
        } else {
            i + 1
        }
    }
}

/// The period `offset` leaf periods away from the current one (the current period
/// when the offset is 0, there are no periods, or the target is out of range).
pub open spec fn period_offset_spec(ctx: EvalCtx, offset: int) -> Seq<char> {
    if offset == 0 || ctx.periods@.len() == 0 {
        ctx.period@
    } else {
        let idx = period_index(ctx.periods@, ctx.period@);
        if idx >= 0 && 0 <= idx + offset < ctx.periods@.len() {
            ctx.periods@[idx + offset]@
        } else {
            ctx.period@
        }
    }
}

/// Climbing the parents from `cur` until an organisation without a parent (or its own
/// parent); None when no such organisation is reached in `fuel` steps (a cycle).
pub open spec fn root_walk(ps: Seq<(String, String)>, cur: Seq<char>, fuel: nat) -> Option<Seq<char>>
    decreases fuel,
{
    match str_lookup(ps, cur) {
        None => Some(cur),
        Some(p) => if p == cur {
            Some(cur)
        } else if fuel == 0 {
            None
        } else {
            root_walk(ps, p, (fuel - 1) as nat)
        },
    }
}

/// What an organisation mark resolves to: `current`/`self` the current organisation,
/// `parent` its parent (itself without one), `root` the top of its parent chain, any
/// other name itself; None when the parent chain has a cycle (the climb would not end).
pub open spec fn org_ref_spec(ctx: EvalCtx, name: Seq<char>) -> Option<Seq<char>> {
    if name == "current"@ || name == "self"@ {
        Some(ctx.org@)
    } else if name == "parent"@ {
        match str_lookup(ctx.org_parent@, ctx.org@) {
            Some(p) => Some(p),
            None => Some(ctx.org@),
        }
    } else if name == "root"@ {
        root_walk(ctx.org_parent@, ctx.org@, ctx.org_parent@.len())
    } else {
        Some(name)
    }
}

pub fn find_str<'b>(m: &'b Vec<(String, String)>, k: &str) -> (r: Option<&'b String>)
    ensures
        r is Some <==> str_lookup(m@, k@) is Some,
        r matches Some(v) ==> v@ == str_lookup(m@, k@)->0,
{
    let mut i: usize = 0;
    proof {
        assert(m@.subrange(0, m@.len() as int) =~= m@);
    }
    while i < m.len()
        invariant
            i <= m@.len(),
            str_lookup(m@, k@) == str_lookup(m@.subrange(i as int, m@.len() as int), k@),
        decreases m@.len() - i,
    {
        let ghost rest = m@.subrange(i as int, m@.len() as int);
        proof {
            assert(rest[0] == m@[i as int]);
            assert(rest.subrange(1, rest.len() as int) =~= m@.subrange(i + 1, m@.len() as int));
        }
        if str_eq(m[i].0.as_str(), k) {
            return Some(&m[i].1);
        }
        i = i + 1;
    }
    proof {
        assert(m@.subrange(i as int, m@.len() as int) =~= Seq::<(String, String)>::empty());
    }
    None
}

/// The first position of a period.
fn period_pos(ps: &Vec<String>, p: &str) -> (r: Option<usize>)
    ensures
        r is Some <==> period_index(ps@, p@) >= 0,
        r matches Some(i) ==> i == period_index(ps@, p@) && i < ps@.len(),
{
    let mut idx: usize = 0;
    proof {
        assert(ps@.subrange(0, ps@.len() as int) =~= ps@);
    }
    while idx < ps.len()
        invariant
            idx <= ps@.len(),
            period_index(ps@, p@) == (if period_index(ps@.subrange(idx as int, ps@.len() as int), p@) < 0 {
                -1
            } else {
                period_index(ps@.subrange(idx as int, ps@.len() as int), p@) + idx
            }),
        decreases ps@.len() - idx,
    {
        let ghost rest = ps@.subrange(idx as int, ps@.len() as int);
        proof {
            assert(rest[0] == ps@[idx as int]);
            assert(rest.subrange(1, rest.len() as int) =~= ps@.subrange(idx + 1, ps@.len() as int));
        }
        if str_eq(ps[idx].as_str(), p) {
            return Some(idx);
        }
        idx = idx + 1;
    }
    proof {
        assert(ps@.subrange(idx as int, ps@.len() as int) =~= Seq::<String>::empty());
    }
    None
}

impl EvalCtx {
    /// The period `offset` leaf periods from the current one.
    pub fn resolve_period_offset(&self, offset: i64) -> (r: String)
        ensures
            r@ == period_offset_spec(*self, offset as int),
    {
        if offset == 0 || self.periods.len() == 0 {
            return self.period.clone();
        }
        match period_pos(&self.periods, self.period.as_str()) {
            None => self.period.clone(),
            Some(idx) => {
                let target: i128 = idx as i128 + offset as i128;
                if target >= 0 && target < self.periods.len() as i128 {
                    self.periods[target as usize].clone()
                } else {
                    self.period.clone()
                }
            },
        }
    }

    /// What an organisation mark resolves to (`current`, `self`, `parent`, `root`, or
    /// the name itself).
    pub fn resolve_org_ref(&self, name: &str) -> (r: String)
        requires
            org_ref_spec(*self, name@) is Some,
        ensures
            r@ == org_ref_spec(*self, name@)->0,
    {
        if str_eq(name, "current") || str_eq(name, "self") {
            self.org.clone()
        } else if str_eq(name, "parent") {
            match find_str(&self.org_parent, self.org.as_str()) {
                Some(p) => p.clone(),
                None => self.org.clone(),
            }
        } else if str_eq(name, "root") {
            let mut cur = self.org.clone();
            let ghost n = self.org_parent@.len();
            let mut fuel: usize = self.org_parent.len();
            loop
                invariant
                    fuel <= n,
                    n == self.org_parent@.len(),
                    org_ref_spec(*self, name@) == root_walk(self.org_parent@, self.org@, n),
                    root_walk(self.org_parent@, cur@, fuel as nat) == root_walk(self.org_parent@, self.org@, n),
                    root_walk(self.org_parent@, self.org@, n) is Some,
                decreases fuel,
            {
                match find_str(&self.org_parent, cur.as_str()) {
                    Some(p) => {
                        if str_eq(p.as_str(), cur.as_str()) {
                            return cur;
                        }
                        if fuel == 0 {
                            return cur;
                        }
                        cur = p.clone();
                        fuel = fuel - 1;
                    },
                    None => {
                        return cur;
                    },
                }
            }
        } else {
            copy_str(name)
        }
    }
}

/// A kind of fetched amount.
#[derive(Debug, Clone, Copy, PartialEq, Eq, Hash, Structural)]
pub enum FetchKind {
    /// Closing balance (QM).
    EndBalance,
    /// Opening balance (QC).
    BeginBalance,
    DebitAmount,
    CreditAmount,
    /// Net movement (debit − credit).
    NetAmount,
    /// Consolidated amount of a consolidation node (CG).
    Consolidated,
    /// Individual total (IND).
    Individual,
    /// Eliminations (ELIM).
    Elimination,
    /// Consolidated cash-flow item (CF).
    CashFlow,
    /// Consolidated equity-change column (EQC).
    EquityChange,
}

/// The complete key of one fetch (period and organisation resolved).
#[derive(Debug, Clone, PartialEq, Eq, Hash)]
pub struct BalanceKey {
    pub kind: FetchKind,
    pub period: String,
    pub org: String,
    /// Account or element code.
    pub object: String,
}

/// A fetch key as plain values.
pub type KeyV = (FetchKind, Seq<char>, Seq<char>, Seq<char>);

impl View for BalanceKey {
    type V = KeyV;

    open spec fn view(&self) -> KeyV {
        (self.kind, self.period@, self.org@, self.object@)
    }
}

/// Everything evaluation reads: field values, this report's cell values, fetched
/// amounts and referenced cells (first entry of a key wins).
pub struct Scope<'a> {
    pub fields: Vec<(String, FValue)>,
    pub cells: Vec<(String, FValue)>,
    pub fetches: Vec<(BalanceKey, Dec)>,
    pub refs: Vec<(String, FValue)>,
    pub ctx: &'a EvalCtx,
}

impl<'a> Scope<'a> {
    /// An empty scope over a context.
    pub fn new(ctx: &'a EvalCtx) -> (r: Scope<'a>)
        ensures
            r.fields@.len() == 0,
            r.cells@.len() == 0,
            r.fetches@.len() == 0,
            r.refs@.len() == 0,
            r.ctx == ctx,
            r@ == empty_scope(*ctx),
    {
        Scope { fields: Vec::new(), cells: Vec::new(), fetches: Vec::new(), refs: Vec::new(), ctx }
    }
}

/// The empty scope over a context.
pub open spec fn empty_scope(ctx: EvalCtx) -> ScopeV {
    ScopeV { fields: Seq::empty(), cells: Seq::empty(), fetches: Seq::empty(), refs: Seq::empty(), ctx }
}

/// A scope as plain data.
pub struct ScopeV {
    pub fields: Seq<(String, FValue)>,
    pub cells: Seq<(String, FValue)>,
    pub fetches: Seq<(BalanceKey, Dec)>,
    pub refs: Seq<(String, FValue)>,
    pub ctx: EvalCtx,
}

impl<'a> View for Scope<'a> {
    type V = ScopeV;

    open spec fn view(&self) -> ScopeV {
        ScopeV { fields: self.fields@, cells: self.cells@, fetches: self.fetches@, refs: self.refs@, ctx: *self.ctx }
    }
}

/// The first value filed under a key.
pub open spec fn val_lookup(m: Seq<(String, FValue)>, k: Seq<char>) -> Option<FVal>
    decreases m.len(),
{
    if m.len() == 0 {
        None
    } else if m[0].0@ == k {
        Some(m[0].1@)
    } else {
        val_lookup(m.subrange(1, m.len() as int), k)
    }
}

/// The first amount fetched under a key.
pub open spec fn fetch_lookup(m: Seq<(BalanceKey, Dec)>, k: KeyV) -> Option<Dec>
    decreases m.len(),
{
    if m.len() == 0 {
        None
    } else if m[0].0@ == k {
        Some(m[0].1)
    } else {
        fetch_lookup(m.subrange(1, m.len() as int), k)
    }
}

/// A value or 0.
pub open spec fn or_zero(o: Option<FVal>) -> FVal {
    match o {
        Some(v) => v,
        None => FVal::Num(Dec::zero_val()),
    }
}

/// The fetch kind a function name stands for (FS by its direction argument's text).
pub open spec fn fetch_kind_spec(name: Seq<char>, dir: Option<Seq<char>>) -> Option<FetchKind> {
    if name == "QM"@ {
        Some(FetchKind::EndBalance)
    } else if name == "QC"@ {
        Some(FetchKind::BeginBalance)
    } else if name == "JE"@ {
        Some(FetchKind::NetAmount)
    } else if name == "CG"@ {
        Some(FetchKind::Consolidated)
    } else if name == "IND"@ {
        Some(FetchKind::Individual)
    } else if name == "ELIM"@ {
        Some(FetchKind::Elimination)
    } else if name == "FS"@ {
        match dir {
            Some(d) => if d == "debit"@ || d == "dr"@ || d == "借"@ {
                Some(FetchKind::DebitAmount)
            } else if d == "credit"@ || d == "cr"@ || d == "贷"@ {
                Some(FetchKind::CreditAmount)
            } else {
                Some(FetchKind::NetAmount)
            },
            None => Some(FetchKind::NetAmount),
        }
    } else {
        None
    }
}

/// The period argument: a number is an offset from the current period, a non-empty
/// text an absolute period, otherwise the current period.
pub open spec fn period_arg(ctx: EvalCtx, v: Option<FVal>) -> Seq<char> {
    match v {
        Some(FVal::Num(d)) => period_offset_spec(
            ctx,
            if i64::MIN <= trunc_int(d) <= i64::MAX {
                trunc_int(d)
            } else {
                0
            },
        ),
        Some(other) => if as_text_spec(other).len() == 0 {
            ctx.period@
        } else {
            as_text_spec(other)
        },
        None => ctx.period@,
    }
}

/// A text argument, or the default when absent or empty.
pub open spec fn text_or(v: Option<FVal>, dflt: Seq<char>) -> Seq<char> {
    match v {
        Some(x) => if as_text_spec(x).len() == 0 {
            dflt
        } else {
            as_text_spec(x)
        },
        None => dflt,
    }
}

/// The key of a fetch function call from its evaluated arguments (period, org,
/// object, and for FS the direction); None when the name is not a fetch function.
pub open spec fn balance_key_spec(
    name: Seq<char>,
    ctx: EvalCtx,
    v0: Option<FVal>,
    v1: Option<FVal>,
    v2: Option<FVal>,
    v3: Option<FVal>,
) -> Option<KeyV> {
    let dir = match v3 {
        Some(d) => Some(lower_seq(as_text_spec(d))),
        None => None,
    };
    match fetch_kind_spec(name, dir) {
        Some(kind) => Some(
            (
                kind,
                period_arg(ctx, v0),
                text_or(v1, ctx.org@),
                match v2 {
                    Some(x) => as_text_spec(x),
                    None => Seq::empty(),
                },
            ),
        ),
        None => None,
    }
}

/// `report|version|org|period|cell`.
pub open spec fn addr_key_spec(r: Seq<char>, v: Seq<char>, o: Seq<char>, p: Seq<char>, c: Seq<char>) -> Seq<char> {
    r + seq!['|'] + v + seq!['|'] + o + seq!['|'] + p + seq!['|'] + c
}

/// The memo key of a referenced cell.
pub fn addr_key(report: &str, version: &str, org: &str, period: &str, cell: &str) -> (r: String)
    ensures
        r@ == addr_key_spec(report@, version@, org@, period@, cell@),
{
    let mut s = copy_str(report);
    push_char(&mut s, '|');
    append_str(&mut s, version);
    push_char(&mut s, '|');
    append_str(&mut s, org);
    push_char(&mut s, '|');
    append_str(&mut s, period);
    push_char(&mut s, '|');
    append_str(&mut s, cell);
    proof {
        assert(s@ =~= addr_key_spec(report@, version@, org@, period@, cell@));
    }
    s
}

// ----------------------------------------------------------------------------
// Evaluation
// ----------------------------------------------------------------------------
/// `Decimal::abs`.
pub open spec fn abs_dec(d: Dec) -> Dec {
    if d.val() < 0 {
        d.neg_val()
    } else {
        d
    }
}

/// `ABS` of a number is its magnitude: the number itself when not negative, its
/// negation otherwise; never negative.
pub proof fn lemma_abs_law(d: Dec)
    requires
        d.wf(),
    ensures
        d.val() >= 0 ==> abs_dec(d).val() == d.val(),
        d.val() < 0 ==> abs_dec(d).val() == -d.val(),
        abs_dec(d).val() >= 0,
{
    d.lemma_negation();
}

/// `Decimal::to_u32`.
pub open spec fn u32_of_dec(d: Dec) -> Option<u32> {
    if d.mant() >= 0 && trunc_int(d) <= u32::MAX {
        Some(trunc_int(d) as u32)
    } else {
        None
    }
}

/// Equality of values: texts, nulls and booleans exactly; anything else by numeric
/// reading within 10^-9 (None when the difference overflows).
pub open spec fn values_eq_spec(a: FVal, b: FVal) -> Option<bool> {
    match (a, b) {
        (FVal::Str(x), FVal::Str(y)) => Some(x == y),
        (FVal::Null, FVal::Null) => Some(true),
        (FVal::Bool(x), FVal::Bool(y)) => Some(x == y),
        _ => match dec_sub_result(as_num_spec(a), as_num_spec(b)) {
            Some(d) => Some(abs_dec(d).val() < 10000000000000000000),
            None => None,
        },
    }
}

/// A number result, None on overflow.
pub open spec fn num_or_fail(o: Option<Dec>) -> Option<FVal> {
    match o {
        Some(x) => Some(FVal::Num(x)),
        None => None,
    }
}

/// A binary operator on two non-error values: `+` concatenates when either is a
/// text; `/` by zero gives 0; comparisons by numeric reading; `==`/`!=` by
/// `values_eq_spec`; an unknown operator gives `#OP!op`. None on overflow.
pub open spec fn arith_spec(op: Seq<char>, lv: FVal, rv: FVal) -> Option<FVal> {
    let a = as_num_spec(lv);
    let b = as_num_spec(rv);
    if op == "+"@ {
        if lv is Str || rv is Str {
            Some(FVal::Str(as_text_spec(lv) + as_text_spec(rv)))
        } else {
            num_or_fail(dec_add_result(a, b))
        }
    } else if op == "-"@ {
        num_or_fail(dec_sub_result(a, b))
    } else if op == "*"@ {
        num_or_fail(dec_mul_result(a, b))
    } else if op == "/"@ {
        if b.val() == 0 {
            Some(FVal::Num(Dec::zero_val()))
        } else {
            num_or_fail(dec_div_result(a, b))
        }
    } else if op == ">"@ {
        Some(FVal::Bool(a.val() > b.val()))
    } else if op == "<"@ {
        Some(FVal::Bool(a.val() < b.val()))
    } else if op == ">="@ {
        Some(FVal::Bool(a.val() >= b.val()))
    } else if op == "<="@ {
        Some(FVal::Bool(a.val() <= b.val()))
    } else if op == "=="@ {
        match values_eq_spec(lv, rv) {
            Some(e) => Some(FVal::Bool(e)),
            None => None,
        }
    } else if op == "!="@ {
        match values_eq_spec(lv, rv) {
            Some(e) => Some(FVal::Bool(!e)),
            None => None,
        }
    } else {
        Some(FVal::Error("#OP!"@ + op))
    }
}

/// The numbers of a range's cells (missing cells 0), or the first error value.
pub open spec fn range_nums(cells: Seq<Seq<char>>, m: Seq<(String, FValue)>) -> Result<Seq<Dec>, FVal>
    decreases cells.len(),
{
    if cells.len() == 0 {
        Ok(Seq::empty())
    } else {
        match range_nums(cells.drop_last(), m) {
            Ok(ns) => {
                let v = or_zero(val_lookup(m, cells.last()));
                if v is Error {
                    Err(v)
                } else {
                    Ok(ns.push(as_num_spec(v)))
                }
            },
            Err(e) => Err(e),
        }
    }
}

/// The sum of numbers from zero (None on overflow).
pub open spec fn dec_sum(ns: Seq<Dec>) -> Option<Dec>
    decreases ns.len(),
{
    if ns.len() == 0 {
        Some(Dec::zero_val())
    } else {
        match dec_sum(ns.drop_last()) {
            Some(s) => dec_add_result(s, ns.last()),
            None => None,
        }
    }
}

/// The first of the smallest numbers (`Iterator::min`).
pub open spec fn min_first(ns: Seq<Dec>) -> Option<Dec>
    decreases ns.len(),
{
    if ns.len() == 0 {
        None
    } else {
        match min_first(ns.drop_last()) {
            Some(m) => if ns.last().val() < m.val() {
                Some(ns.last())
            } else {
                Some(m)
            },
            None => Some(ns.last()),
        }
    }
}

/// The last of the largest numbers (`Iterator::max`).
pub open spec fn max_last(ns: Seq<Dec>) -> Option<Dec>
    decreases ns.len(),
{
    if ns.len() == 0 {
        None
    } else {
        match max_last(ns.drop_last()) {
            Some(m) => if ns.last().val() >= m.val() {
                Some(ns.last())
            } else {
                Some(m)
            },
            None => Some(ns.last()),
        }
    }
}

/// `MAX` over a non-empty list of numbers is one of them, at least every one of them,
/// and the last of the largest: every later number is smaller.
pub proof fn lemma_max_last_order(ns: Seq<Dec>)
    requires
        ns.len() > 0,
    ensures
        max_last(ns) is Some,
        exists|k: int|
            0 <= k < ns.len() && ns[k] == max_last(ns)->0 && (forall|j: int|
                k < j < ns.len() ==> (#[trigger] ns[j]).val() < ns[k].val()),
        forall|i: int| 0 <= i < ns.len() ==> (#[trigger] ns[i]).val() <= (max_last(ns)->0).val(),
    decreases ns.len(),
{
    let pre = ns.drop_last();
    if pre.len() == 0 {
        assert(ns[0] == ns.last());
        assert(max_last(ns)->0 == ns[0]);
    } else {
        lemma_max_last_order(pre);
        let m = max_last(pre)->0;
        let k = choose|k: int|
            0 <= k < pre.len() && pre[k] == m && (forall|j: int| k < j < pre.len() ==> (#[trigger] pre[j]).val() < pre[k].val());
        assert forall|i: int| 0 <= i < ns.len() implies (#[trigger] ns[i]).val() <= (max_last(ns)->0).val() by {
            if i < pre.len() {
                assert(ns[i] == pre[i]);
            }
        }
        if ns.last().val() >= m.val() {
            assert(ns[ns.len() - 1] == max_last(ns)->0);
        } else {
            assert(ns[k] == pre[k]);
            assert forall|j: int| k < j < ns.len() implies (#[trigger] ns[j]).val() < ns[k].val() by {
                if j < pre.len() {
                    assert(ns[j] == pre[j]);
                }
            }
        }
    }
}

/// `MIN` over a non-empty list of numbers is one of them, at most every one of them,
/// and the first of the smallest: every earlier number is larger.
pub proof fn lemma_min_first_order(ns: Seq<Dec>)
    requires
        ns.len() > 0,
    ensures
        min_first(ns) is Some,
        exists|k: int|
            0 <= k < ns.len() && ns[k] == min_first(ns)->0 && (forall|j: int|
                0 <= j < k ==> (#[trigger] ns[j]).val() > ns[k].val()),
        forall|i: int| 0 <= i < ns.len() ==> (#[trigger] ns[i]).val() >= (min_first(ns)->0).val(),
    decreases ns.len(),
{
    let pre = ns.drop_last();
    if pre.len() == 0 {
        assert(ns[0] == ns.last());
        assert(min_first(ns)->0 == ns[0]);
    } else {
        lemma_min_first_order(pre);
        let m = min_first(pre)->0;
        let k = choose|k: int|
            0 <= k < pre.len() && pre[k] == m && (forall|j: int| 0 <= j < k ==> (#[trigger] pre[j]).val() > pre[k].val());
        assert forall|i: int| 0 <= i < ns.len() implies (#[trigger] ns[i]).val() >= (min_first(ns)->0).val() by {
            if i < pre.len() {
                assert(ns[i] == pre[i]);
            }
        }
        if ns.last().val() < m.val() {
            let l = ns.len() - 1;
            assert(ns[l] == min_first(ns)->0);
            assert forall|j: int| 0 <= j < l implies (#[trigger] ns[j]).val() > ns[l].val() by {
                assert(ns[j] == pre[j]);
            }
        } else {
            assert(ns[k] == pre[k]);
            assert forall|j: int| 0 <= j < k implies (#[trigger] ns[j]).val() > ns[k].val() by {
                assert(ns[j] == pre[j]);
            }
        }
    }
}

/// The function names that fetch amounts.
pub open spec fn is_fetch_name(name: Seq<char>) -> bool {
    name == "QM"@ || name == "QC"@ || name == "FS"@ || name == "JE"@ || name == "CG"@ || name == "IND"@ || name
        == "ELIM"@
}

/// The value of a node: literals themselves; a field or a cell its value (0 when
/// missing); an organisation mark its resolution; a bare range `#RANGE!`; unary and
/// binary operators on values (errors propagate, `&&`/`||` short-circuit); calls by
/// `call_spec`.  None where evaluation fails (decimal overflow, a function that needs
/// an argument called with none, an organisation chain with a cycle).
pub open spec fn eval_spec(n: NodeV, sc: ScopeV) -> Option<FVal>
    decreases n, 3int,
{
    match n {
        NodeV::Num(d) => Some(FVal::Num(d)),
        NodeV::Str(s) => Some(FVal::Str(s)),
        NodeV::Bool(b) => Some(FVal::Bool(b)),
        NodeV::Null => Some(FVal::Null),
        NodeV::Ident(name) => Some(or_zero(val_lookup(sc.fields, name))),
        NodeV::OrgRef(name) => match org_ref_spec(sc.ctx, name) {
            Some(o) => Some(FVal::Str(o)),
            None => None,
        },
        NodeV::Cell(c) => Some(or_zero(val_lookup(sc.cells, c))),
        NodeV::Range(_, _) => Some(FVal::Error("#RANGE!"@)),
        NodeV::Unary(op, x) => match eval_spec(*x, sc) {
            Some(v) => if v is Error {
                Some(v)
            } else if op == "-"@ {
                Some(FVal::Num(as_num_spec(v).neg_val()))
            } else if op == "!"@ {
                Some(FVal::Bool(!as_bool_spec(v)))
            } else {
                Some(FVal::Error("#OP!"@ + op))
            },
            None => None,
        },
        NodeV::Binary(op, l, r) => if op == "&&"@ || op == "||"@ {
            match eval_spec(*l, sc) {
                Some(lv) => if lv is Error {
                    Some(lv)
                } else if op == "&&"@ && !as_bool_spec(lv) {
                    Some(FVal::Bool(false))
                } else if op == "||"@ && as_bool_spec(lv) {
                    Some(FVal::Bool(true))
                } else {
                    match eval_spec(*r, sc) {
                        Some(rv) => if rv is Error {
                            Some(rv)
                        } else {
                            Some(FVal::Bool(as_bool_spec(rv)))
                        },
                        None => None,
                    }
                },
                None => None,
            }
        } else {
            match eval_spec(*l, sc) {
                Some(lv) => match eval_spec(*r, sc) {
                    Some(rv) => if lv is Error {
                        Some(lv)
                    } else if rv is Error {
                        Some(rv)
                    } else {
                        arith_spec(op, lv, rv)
                    },
                    None => None,
                },
                None => None,
            }
        },
        NodeV::Call(name, args) => call_spec(name, args, sc),
    }
}

/// The value of argument `i` (inner None when absent; outer None when its evaluation
/// fails).
pub open spec fn arg_val(args: Seq<NodeV>, i: int, sc: ScopeV) -> Option<Option<FVal>>
    decreases args, 0int,
{
    if 0 <= i < args.len() {
        match eval_spec(args[i], sc) {
            Some(v) => Some(Some(v)),
            None => None,
        }
    } else {
        Some(None)
    }
}

/// The numbers an argument contributes: a range its cells', anything else its value's
/// (Err: the first error value met).
pub open spec fn arg_nums_spec(args: Seq<NodeV>, i: int, sc: ScopeV) -> Option<Result<Seq<Dec>, FVal>>
    decreases args, 0int,
{
    if 0 <= i < args.len() {
        match args[i] {
            NodeV::Range(a, b) => if range_ok(a) && range_ok(b) {
                Some(range_nums(expand_range_spec(a, b), sc.cells))
            } else {
                None
            },
            _ => match eval_spec(args[i], sc) {
                Some(v) => if v is Error {
                    Some(Err(v))
                } else {
                    Some(Ok(seq![as_num_spec(v)]))
                },
                None => None,
            },
        }
    } else {
        Some(Ok(Seq::empty()))
    }
}

/// `SUM`: the running total over the arguments (each argument's numbers summed from
/// zero first), or the first error.
pub open spec fn sum_fold(args: Seq<NodeV>, sc: ScopeV, s: Dec) -> Option<FVal>
    decreases args, 1int,
{
    if args.len() == 0 {
        Some(FVal::Num(s))
    } else {
        match arg_nums_spec(args, 0, sc) {
            Some(Ok(ns)) => match dec_sum(ns) {
                Some(t) => match dec_add_result(s, t) {
                    Some(s2) => sum_fold(args.subrange(1, args.len() as int), sc, s2),
                    None => None,
                },
                None => None,
            },
            Some(Err(e)) => Some(e),
            None => None,
        }
    }
}

/// All the numbers of the arguments in order, or the first error.
pub open spec fn nums_fold(args: Seq<NodeV>, sc: ScopeV) -> Option<Result<Seq<Dec>, FVal>>
    decreases args, 1int,
{
    if args.len() == 0 {
        Some(Ok(Seq::empty()))
    } else {
        match arg_nums_spec(args, 0, sc) {
            Some(Ok(ns)) => match nums_fold(args.subrange(1, args.len() as int), sc) {
                Some(Ok(rest)) => Some(Ok(ns + rest)),
                other => other,
            },
            Some(Err(e)) => Some(Err(e)),
            None => None,
        }
    }
}

/// `AND` (`is_and`) / `OR`: short-circuit over the arguments; errors propagate.
pub open spec fn logic_fold(args: Seq<NodeV>, sc: ScopeV, is_and: bool) -> Option<FVal>
    decreases args, 1int,
{
    if args.len() == 0 {
        Some(FVal::Bool(is_and))
    } else {
        match eval_spec(args[0], sc) {
            Some(v) => if v is Error {
                Some(v)
            } else if as_bool_spec(v) != is_and {
                Some(FVal::Bool(!is_and))
            } else {
                logic_fold(args.subrange(1, args.len() as int), sc, is_and)
            },
            None => None,
        }
    }
}

/// `COALESCE`: the first non-empty value (errors propagate), else null.
pub open spec fn coalesce_fold(args: Seq<NodeV>, sc: ScopeV) -> Option<FVal>
    decreases args, 1int,
{
    if args.len() == 0 {
        Some(FVal::Null)
    } else {
        match eval_spec(args[0], sc) {
            Some(v) => if v is Error || !is_empty_spec(v) {
                Some(v)
            } else {
                coalesce_fold(args.subrange(1, args.len() as int), sc)
            },
            None => None,
        }
    }
}

/// The fetch key of a fetch function call (inner None: not derivable).
pub open spec fn fetch_key_spec(name: Seq<char>, args: Seq<NodeV>, sc: ScopeV) -> Option<Option<KeyV>>
    decreases args, 1int,
{
    let v3 = if name == "FS"@ {
        arg_val(args, 3, sc)
    } else {
        Some(None)
    };
    match (v3, arg_val(args, 0, sc), arg_val(args, 1, sc), arg_val(args, 2, sc)) {
        (Some(d), Some(a), Some(b), Some(c)) => Some(balance_key_spec(name, sc.ctx, a, b, c, d)),
        _ => None,
    }
}

/// The target of a `REF(report, version, cell [, org, period])` call as (report,
/// version, org, period, cell), org and period defaulting to the context's (inner
/// None: no report or no cell).
pub open spec fn ref_addr_spec(args: Seq<NodeV>, sc: ScopeV) -> Option<
    Option<(Seq<char>, Seq<char>, Seq<char>, Seq<char>, Seq<char>)>,
>
    decreases args, 1int,
{
    if args.len() == 0 {
        Some(None)
    } else {
        match (arg_val(args, 0, sc), arg_val(args, 1, sc)) {
            (Some(Some(v0)), Some(v1)) => if args.len() < 3 {
                Some(None)
            } else {
                let cell: Option<Seq<char>> = match args[2] {
                    NodeV::Cell(c) => Some(c),
                    _ => match eval_spec(args[2], sc) {
                        Some(v) => Some(upper_seq(as_text_spec(v))),
                        None => None,
                    },
                };
                match (cell, arg_val(args, 3, sc), arg_val(args, 4, sc)) {
                    (Some(c), Some(o), Some(p)) => {
                        let report = as_text_spec(v0);
                        let version = match v1 {
                            Some(x) => as_text_spec(x),
                            None => Seq::empty(),
                        };
                        if report.len() == 0 || c.len() == 0 {
                            Some(None)
                        } else {
                            Some(
                                Some(
                                    (
                                        report,
                                        version,
                                        text_or(o, sc.ctx.org@),
                                        text_or(p, sc.ctx.period@),
                                        c,
                                    ),
                                ),
                            )
                        }
                    },
                    _ => None,
                }
            },
            _ => None,
        }
    }
}

/// A function call: fetch functions look their key up in the fetched amounts (0 when
/// missing, `#ARG!` without a key); `REF` its target in the referenced cells (`#REF!`
/// without one); `SUM`, `MIN`, `MAX` over numbers and ranges; `ABS`, `ROUND`; `IF`,
/// `AND`, `OR`, `NOT`, `ISEMPTY`, `COALESCE`; anything else `#NAME?name`.
pub open spec fn call_spec(name: Seq<char>, args: Seq<NodeV>, sc: ScopeV) -> Option<FVal>
    decreases args, 2int,
{
    if is_fetch_name(name) {
        match fetch_key_spec(name, args, sc) {
            Some(Some(k)) => Some(
                FVal::Num(
                    match fetch_lookup(sc.fetches, k) {
                        Some(x) => x,
                        None => Dec::zero_val(),
                    },
                ),
            ),
            Some(None) => Some(FVal::Error("#ARG!"@)),
            None => None,
        }
    } else if name == "REF"@ {
        match ref_addr_spec(args, sc) {
            Some(Some(a)) => Some(or_zero(val_lookup(sc.refs, addr_key_spec(a.0, a.1, a.2, a.3, a.4)))),
            Some(None) => Some(FVal::Error("#REF!"@)),
            None => None,
        }
    } else if name == "SUM"@ {
        sum_fold(args, sc, Dec::zero_val())
    } else if name == "MIN"@ || name == "MAX"@ {
        match nums_fold(args, sc) {
            Some(Ok(ns)) => Some(
                FVal::Num(
                    match (if name == "MIN"@ {
                        min_first(ns)
                    } else {
                        max_last(ns)
                    }) {
                        Some(x) => x,
                        None => Dec::zero_val(),
                    },
                ),
            ),
            Some(Err(e)) => Some(e),
            None => None,
        }
    } else if name == "ABS"@ || name == "NOT"@ || name == "ISEMPTY"@ || name == "ROUND"@ {
        if args.len() == 0 {
            None
        } else {
            match eval_spec(args[0], sc) {
                Some(v) => if name == "ISEMPTY"@ {
                    Some(FVal::Bool(is_empty_spec(v)))
                } else if v is Error {
                    Some(v)
                } else if name == "ABS"@ {
                    Some(FVal::Num(abs_dec(as_num_spec(v))))
                } else if name == "NOT"@ {
                    Some(FVal::Bool(!as_bool_spec(v)))
                } else {
                    match arg_val(args, 1, sc) {
                        Some(d) => {
                            let digits: u32 = match d {
                                Some(x) => match u32_of_dec(as_num_spec(x)) {
                                    Some(k) => k,
                                    None => 0,
                                },
                                None => 0,
                            };
                            Some(FVal::Num(dec_round_result(as_num_spec(v), digits)))
                        },
                        None => None,
                    }
                },
                None => None,
            }
        }
    } else if name == "IF"@ {
        if args.len() < 2 {
            Some(FVal::Error("#ARG!"@))
        } else {
            match eval_spec(args[0], sc) {
                Some(c) => if c is Error {
                    Some(c)
                } else if as_bool_spec(c) {
                    eval_spec(args[1], sc)
                } else if args.len() > 2 {
                    eval_spec(args[2], sc)
                } else {
                    Some(FVal::Null)
                },
                None => None,
            }
        }
    } else if name == "AND"@ {
        logic_fold(args, sc, true)
    } else if name == "OR"@ {
        logic_fold(args, sc, false)
    } else if name == "COALESCE"@ {
        coalesce_fold(args, sc)
    } else {
        Some(FVal::Error("#NAME?"@ + name))
    }
}

// ----------------------------------------------------------------------------
// The evaluator
// ----------------------------------------------------------------------------
/// An optional value as plain data.
pub open spec fn opt_val(o: Option<FValue>) -> Option<FVal> {
    match o {
        Some(v) => Some(v@),
        None => None,
    }
}

pub proof fn lemma_nodes_view(s: Seq<Node>)
    ensures
        nodes_view(s).len() == s.len(),
        forall|i: int| 0 <= i < s.len() ==> #[trigger] nodes_view(s)[i] == node_view(s[i]),
    decreases s.len(),
{
    if s.len() > 0 {
        let t = s.subrange(1, s.len() as int);
        lemma_nodes_view(t);
        assert forall|i: int| 0 <= i < s.len() implies #[trigger] nodes_view(s)[i] == node_view(s[i]) by {
            if i > 0 {
                assert(t[i - 1] == s[i]);
            }
        }
    }
}

fn lookup_val(m: &Vec<(String, FValue)>, k: &str) -> (r: FValue)
    ensures
        r@ == or_zero(val_lookup(m@, k@)),
{
    let mut i: usize = 0;
    proof {
        assert(m@.subrange(0, m@.len() as int) =~= m@);
    }
    while i < m.len()
        invariant
            i <= m@.len(),
            val_lookup(m@, k@) == val_lookup(m@.subrange(i as int, m@.len() as int), k@),
        decreases m@.len() - i,
    {
        let ghost rest = m@.subrange(i as int, m@.len() as int);
        proof {
            assert(rest[0] == m@[i as int]);
            assert(rest.subrange(1, rest.len() as int) =~= m@.subrange(i + 1, m@.len() as int));
        }
        if str_eq(m[i].0.as_str(), k) {
            return m[i].1.clone();
        }
        i = i + 1;
    }
    proof {
        assert(m@.subrange(i as int, m@.len() as int) =~= Seq::<(String, FValue)>::empty());
    }
    FValue::Num(Dec::zero())
}

fn same_key(a: &BalanceKey, b: &BalanceKey) -> (r: bool)
    ensures
        r == (a@ == b@),
{
    a.kind == b.kind && str_eq(a.period.as_str(), b.period.as_str()) && str_eq(a.org.as_str(), b.org.as_str())
        && str_eq(a.object.as_str(), b.object.as_str())
}

fn lookup_fetch(m: &Vec<(BalanceKey, Dec)>, k: &BalanceKey) -> (r: Dec)
    ensures
        r == (match fetch_lookup(m@, k@) {
            Some(x) => x,
            None => Dec::zero_val(),
        }),
{
    let mut i: usize = 0;
    proof {
        assert(m@.subrange(0, m@.len() as int) =~= m@);
    }
    while i < m.len()
        invariant
            i <= m@.len(),
            fetch_lookup(m@, k@) == fetch_lookup(m@.subrange(i as int, m@.len() as int), k@),
        decreases m@.len() - i,
    {
        let ghost rest = m@.subrange(i as int, m@.len() as int);
        proof {
            assert(rest[0] == m@[i as int]);
            assert(rest.subrange(1, rest.len() as int) =~= m@.subrange(i + 1, m@.len() as int));
        }
        if same_key(&m[i].0, k) {
            return m[i].1;
        }
        i = i + 1;
    }
    proof {
        assert(m@.subrange(i as int, m@.len() as int) =~= Seq::<(BalanceKey, Dec)>::empty());
    }
    Dec::zero()
}

fn values_eq(a: &FValue, b: &FValue) -> (r: Option<bool>)
    ensures
        r == values_eq_spec(a@, b@),
{
    match (a, b) {
        (FValue::Str(x), FValue::Str(y)) => Some(str_eq(x.as_str(), y.as_str())),
        (FValue::Null, FValue::Null) => Some(true),
        (FValue::Bool(x), FValue::Bool(y)) => Some(*x == *y),
        _ => match dec_checked_sub(a.as_num(), b.as_num()) {
            Some(d) => {
                let e = Dec::new(1, 9).unwrap();
                proof {
                    assert(e.val() == 1 * crate::decimal::pow10(19));
                    crate::decimal::lemma_pow10_pos(19);
                    assert(crate::decimal::pow10(19) == 10000000000000000000) by {
                        reveal_with_fuel(crate::decimal::pow10, 20);
                    }
                }
                Some(d.abs().lt(&e))
            },
            None => None,
        },
    }
}

fn arith(op: &str, lv: &FValue, rv: &FValue) -> (r: Option<FValue>)
    ensures
        opt_val(r) == arith_spec(op@, lv@, rv@),
{
    let a = lv.as_num();
    let b = rv.as_num();
    if str_eq(op, "+") {
        if matches!(lv, FValue::Str(_)) || matches!(rv, FValue::Str(_)) {
            let mut t = lv.as_text();
            append_str(&mut t, rv.as_text().as_str());
            Some(FValue::Str(t))
        } else {
            match dec_checked_add(a, b) {
                Some(x) => Some(FValue::Num(x)),
                None => None,
            }
        }
    } else if str_eq(op, "-") {
        match dec_checked_sub(a, b) {
            Some(x) => Some(FValue::Num(x)),
            None => None,
        }
    } else if str_eq(op, "*") {
        match dec_checked_mul(a, b) {
            Some(x) => Some(FValue::Num(x)),
            None => None,
        }
    } else if str_eq(op, "/") {
        if b.is_zero() {
            Some(FValue::Num(Dec::zero()))
        } else {
            match dec_checked_div(a, b) {
                Some(x) => Some(FValue::Num(x)),
                None => None,
            }
        }
    } else if str_eq(op, ">") {
        Some(FValue::Bool(b.lt(&a)))
    } else if str_eq(op, "<") {
        Some(FValue::Bool(a.lt(&b)))
    } else if str_eq(op, ">=") {
        Some(FValue::Bool(b.le(&a)))
    } else if str_eq(op, "<=") {
        Some(FValue::Bool(a.le(&b)))
    } else if str_eq(op, "==") {
        match values_eq(lv, rv) {
            Some(e) => Some(FValue::Bool(e)),
            None => None,
        }
    } else if str_eq(op, "!=") {
        match values_eq(lv, rv) {
            Some(e) => Some(FValue::Bool(!e)),
            None => None,
        }
    } else {
        let mut t = copy_str("#OP!");
        append_str(&mut t, op);
        Some(FValue::Error(t))
    }
}

/// Evaluates a node over a scope; None where evaluation fails (decimal overflow, a
/// function needing an argument called with none, an organisation chain with a
/// cycle) — the cases where evaluation would not give a value.
pub fn try_eval(node: &Node, sc: &Scope) -> (r: Option<FValue>)
    ensures
        opt_val(r) == eval_spec(node_view(*node), sc@),
    decreases node, 3int,
{
    match node {
        Node::Num(n) => Some(FValue::Num(*n)),
        Node::Str(s) => Some(FValue::Str(s.clone())),
        Node::Bool(b) => Some(FValue::Bool(*b)),
        Node::Null => Some(FValue::Null),
        Node::Ident(name) => Some(lookup_val(&sc.fields, name.as_str())),
        Node::OrgRef(name) => {
            if org_resolvable(sc.ctx, name.as_str()) {
                Some(FValue::Str(sc.ctx.resolve_org_ref(name.as_str())))
            } else {
                None
            }
        },
        Node::Cell(c) => Some(lookup_val(&sc.cells, c.as_str())),
        Node::Range(_, _) => Some(FValue::Error(copy_str("#RANGE!"))),
        Node::Unary(op, x) => {
            let v = try_eval(x, sc)?;
            if v.is_error() {
                return Some(v);
            }
            if str_eq(op.as_str(), "-") {
                Some(FValue::Num(v.as_num().neg()))
            } else if str_eq(op.as_str(), "!") {
                Some(FValue::Bool(!v.as_bool()))
            } else {
                let mut t = copy_str("#OP!");
                append_str(&mut t, op.as_str());
                Some(FValue::Error(t))
            }
        },
        Node::Binary(op, l, r) => {
            let is_and = str_eq(op.as_str(), "&&");
            let is_or = str_eq(op.as_str(), "||");
            if is_and || is_or {
                let lv = try_eval(l, sc)?;
                if lv.is_error() {
                    return Some(lv);
                }
                let lb = lv.as_bool();
                if is_and && !lb {
                    return Some(FValue::Bool(false));
                }
                if is_or && lb {
                    return Some(FValue::Bool(true));
                }
                let rv = try_eval(r, sc)?;
                if rv.is_error() {
                    return Some(rv);
                }
                Some(FValue::Bool(rv.as_bool()))
            } else {
                let lv = try_eval(l, sc)?;
                let rv = try_eval(r, sc)?;
                if lv.is_error() {
                    return Some(lv);
                }
                if rv.is_error() {
                    return Some(rv);
                }
                arith(op.as_str(), &lv, &rv)
            }
        },
        Node::Call(name, args) => try_call(name, args, sc),
    }
}

fn org_resolvable(ctx: &EvalCtx, name: &str) -> (r: bool)
    ensures
        r == (org_ref_spec(*ctx, name@) is Some),
{
    if !str_eq(name, "root") || str_eq(name, "current") || str_eq(name, "self") || str_eq(name, "parent") {
        return true;
    }
    let mut cur = ctx.org.clone();
    let ghost n = ctx.org_parent@.len();
    let mut fuel: usize = ctx.org_parent.len();
    loop
        invariant
            fuel <= n,
            n == ctx.org_parent@.len(),
            org_ref_spec(*ctx, name@) == root_walk(ctx.org_parent@, ctx.org@, n),
            root_walk(ctx.org_parent@, cur@, fuel as nat) == root_walk(ctx.org_parent@, ctx.org@, n),
        decreases fuel,
    {
        match find_str(&ctx.org_parent, cur.as_str()) {
            Some(p) => {
                if str_eq(p.as_str(), cur.as_str()) {
                    return true;
                }
                if fuel == 0 {
                    return false;
                }
                cur = p.clone();
                fuel = fuel - 1;
            },
            None => {
                return true;
            },
        }
    }
}

/// The value of argument `i` (inner None when absent).
fn try_arg(args: &Vec<Node>, i: usize, sc: &Scope) -> (r: Option<Option<FValue>>)
    ensures
        match arg_val(nodes_view(args@), i as int, sc@) {
            Some(Some(v)) => r matches Some(Some(x)) && x@ == v,
            Some(None) => r matches Some(None),
            None => r is None,
        },
    decreases args@, 0int,
{
    proof {
        lemma_nodes_view(args@);
    }
    if i < args.len() {
        match try_eval(&args[i], sc) {
            Some(v) => Some(Some(v)),
            None => None,
        }
    } else {
        Some(None)
    }
}

/// The numbers of a range's cells.
fn range_numbers(cells: &Vec<String>, m: &Vec<(String, FValue)>) -> (r: Result<Vec<Dec>, FValue>)
    ensures
        match range_nums(cells@.map_values(|s: String| s@), m@) {
            Ok(ns) => r matches Ok(v) && v@ == ns,
            Err(e) => r matches Err(x) && x@ == e,
        },
{
    let ghost cs = cells@.map_values(|s: String| s@);
    let mut out: Vec<Dec> = Vec::new();
    let mut i: usize = 0;
    proof {
        assert(cs.subrange(0, 0) =~= Seq::<Seq<char>>::empty());
    }
    while i < cells.len()
        invariant
            cs == cells@.map_values(|s: String| s@),
            i <= cs.len(),
            range_nums(cs.subrange(0, i as int), m@) == Ok::<Seq<Dec>, FVal>(out@),
        decreases cs.len() - i,
    {
        let v = lookup_val(m, cells[i].as_str());
        proof {
            let p = cs.subrange(0, i + 1);
            assert(p.drop_last() =~= cs.subrange(0, i as int));
            assert(p.last() == cells@[i as int]@);
        }
        if v.is_error() {
            proof {
                lemma_range_nums_err_prefix(cs, i as int + 1, m@);
            }
            return Err(v);
        }
        out.push(v.as_num());
        i = i + 1;
    }
    proof {
        assert(cs.subrange(0, cs.len() as int) =~= cs);
    }
    Ok(out)
}

proof fn lemma_range_nums_err_prefix(cs: Seq<Seq<char>>, k: int, m: Seq<(String, FValue)>)
    requires
        0 <= k <= cs.len(),
        range_nums(cs.subrange(0, k), m) is Err,
    ensures
        range_nums(cs, m) == range_nums(cs.subrange(0, k), m),
    decreases cs.len() - k,
{
    if k < cs.len() {
        let p = cs.subrange(0, k + 1);
        assert(p.drop_last() =~= cs.subrange(0, k));
        lemma_range_nums_err_prefix(cs, k + 1, m);
    } else {
        assert(cs.subrange(0, k) =~= cs);
    }
}

/// The numbers argument `i` contributes.
fn try_arg_nums(args: &Vec<Node>, i: usize, sc: &Scope) -> (r: Option<Result<Vec<Dec>, FValue>>)
    ensures
        match arg_nums_spec(nodes_view(args@), i as int, sc@) {
            Some(Ok(ns)) => r matches Some(Ok(v)) && v@ == ns,
            Some(Err(e)) => r matches Some(Err(x)) && x@ == e,
            None => r is None,
        },
    decreases args@, 0int,
{
    proof {
        lemma_nodes_view(args@);
    }
    if i >= args.len() {
        return Some(Ok(Vec::new()));
    }
    match &args[i] {
        Node::Range(a, b) => {
            if range_checkable(a.as_str()) && range_checkable(b.as_str()) {
                let cells = expand_range(a.as_str(), b.as_str());
                match range_numbers(&cells, &sc.cells) {
                    Ok(v) => Some(Ok(v)),
                    Err(e) => Some(Err(e)),
                }
            } else {
                None
            }
        },
        _ => match try_eval(&args[i], sc) {
            Some(v) => {
                if v.is_error() {
                    Some(Err(v))
                } else {
                    let mut one: Vec<Dec> = Vec::new();
                    one.push(v.as_num());
                    proof {
                        assert(one@ =~= seq![as_num_spec(v@)]);
                    }
                    Some(Ok(one))
                }
            },
            None => None,
        },
    }
}

pub(crate) fn range_checkable(s: &str) -> (r: bool)
    ensures
        r == range_ok(s@),
{
    match crate::formula::cells::split_cell_ref(s) {
        None => true,
        Some((col, _row)) => crate::formula::cells::alpha_val_below_max(col.as_str()),
    }
}

fn dec_total(ns: &Vec<Dec>) -> (r: Option<Dec>)
    ensures
        r == dec_sum(ns@),
{
    let mut s = Dec::zero();
    let mut i: usize = 0;
    proof {
        assert(ns@.subrange(0, 0) =~= Seq::<Dec>::empty());
    }
    while i < ns.len()
        invariant
            i <= ns@.len(),
            dec_sum(ns@.subrange(0, i as int)) == Some(s),
        decreases ns@.len() - i,
    {
        proof {
            let p = ns@.subrange(0, i + 1);
            assert(p.drop_last() =~= ns@.subrange(0, i as int));
            assert(p.last() == ns@[i as int]);
        }
        match dec_checked_add(s, ns[i]) {
            Some(t) => {
                s = t;
            },
            None => {
                proof {
                    lemma_dec_sum_none_prefix(ns@, i as int + 1);
                }
                return None;
            },
        }
        i = i + 1;
    }
    proof {
        assert(ns@.subrange(0, ns@.len() as int) =~= ns@);
    }
    Some(s)
}

proof fn lemma_dec_sum_none_prefix(ns: Seq<Dec>, k: int)
    requires
        0 <= k <= ns.len(),
        dec_sum(ns.subrange(0, k)) is None,
    ensures
        dec_sum(ns) is None,
    decreases ns.len() - k,
{
    if k < ns.len() {
        let p = ns.subrange(0, k + 1);
        assert(p.drop_last() =~= ns.subrange(0, k));
        lemma_dec_sum_none_prefix(ns, k + 1);
    } else {
        assert(ns.subrange(0, k) =~= ns);
    }
}

fn is_fetch(n: &str) -> (r: bool)
    ensures
        r == is_fetch_name(n@),
{
    str_eq(n, "QM") || str_eq(n, "QC") || str_eq(n, "FS") || str_eq(n, "JE") || str_eq(n, "CG") || str_eq(n, "IND")
        || str_eq(n, "ELIM")
}

fn fetch_kind(name: &str, dir: &Option<String>) -> (r: Option<FetchKind>)
    ensures
        r == fetch_kind_spec(
            name@,
            match dir {
                Some(d) => Some(d@),
                None => None,
            },
        ),
{
    if str_eq(name, "QM") {
        Some(FetchKind::EndBalance)
    } else if str_eq(name, "QC") {
        Some(FetchKind::BeginBalance)
    } else if str_eq(name, "JE") {
        Some(FetchKind::NetAmount)
    } else if str_eq(name, "CG") {
        Some(FetchKind::Consolidated)
    } else if str_eq(name, "IND") {
        Some(FetchKind::Individual)
    } else if str_eq(name, "ELIM") {
        Some(FetchKind::Elimination)
    } else if str_eq(name, "FS") {
        match dir {
            Some(d) => {
                let t = d.as_str();
                if str_eq(t, "debit") || str_eq(t, "dr") || str_eq(t, "借") {
                    Some(FetchKind::DebitAmount)
                } else if str_eq(t, "credit") || str_eq(t, "cr") || str_eq(t, "贷") {
                    Some(FetchKind::CreditAmount)
                } else {
                    Some(FetchKind::NetAmount)
                }
            },
            None => Some(FetchKind::NetAmount),
        }
    } else {
        None
    }
}

fn text_or_default(v: &Option<FValue>, dflt: &String) -> (r: String)
    ensures
        r@ == text_or(opt_val(*v), dflt@),
{
    match v {
        Some(x) => {
            let t = x.as_text();
            if t.as_str().is_empty() {
                dflt.clone()
            } else {
                t
            }
        },
        None => dflt.clone(),
    }
}

/// The fetch key of a fetch call.
pub(crate) fn try_fetch_key(name: &str, args: &Vec<Node>, sc: &Scope) -> (r: Option<Option<BalanceKey>>)
    ensures
        match fetch_key_spec(name@, nodes_view(args@), sc@) {
            Some(Some(k)) => r matches Some(Some(x)) && x@ == k,
            Some(None) => r matches Some(None),
            None => r is None,
        },
    decreases args@, 1int,
{
    let v3 = if str_eq(name, "FS") {
        try_arg(args, 3, sc)?
    } else {
        None
    };
    let v0 = try_arg(args, 0, sc)?;
    let v1 = try_arg(args, 1, sc)?;
    let v2 = try_arg(args, 2, sc)?;
    let dir = match &v3 {
        Some(d) => Some(lower_string(d.as_text().as_str())),
        None => None,
    };
    let kind = match fetch_kind(name, &dir) {
        Some(k) => k,
        None => {
            return Some(None);
        },
    };
    let period = match &v0 {
        Some(FValue::Num(d)) => {
            let off = match dec_to_i64(*d) {
                Some(x) => x,
                None => 0,
            };
            sc.ctx.resolve_period_offset(off)
        },
        Some(other) => {
            let t = other.as_text();
            if t.as_str().is_empty() {
                sc.ctx.period.clone()
            } else {
                t
            }
        },
        None => sc.ctx.period.clone(),
    };
    let org = text_or_default(&v1, &sc.ctx.org);
    let object = match &v2 {
        Some(x) => x.as_text(),
        None => String::new(),
    };
    Some(Some(BalanceKey { kind, period, org, object }))
}

/// The target of a `REF` call.
pub(crate) fn try_ref_addr(args: &Vec<Node>, sc: &Scope) -> (r: Option<Option<(String, String, String, String, String)>>)
    ensures
        match ref_addr_spec(nodes_view(args@), sc@) {
            Some(Some(k)) => r matches Some(Some(x)) && x.0@ == k.0 && x.1@ == k.1 && x.2@ == k.2
                && x.3@ == k.3 && x.4@ == k.4,
            Some(None) => r matches Some(None),
            None => r is None,
        },
    decreases args@, 1int,
{
    proof {
        lemma_nodes_view(args@);
    }
    if args.len() == 0 {
        return Some(None);
    }
    let v0 = try_arg(args, 0, sc)?;
    let v1 = try_arg(args, 1, sc)?;
    let report = match &v0 {
        Some(x) => x.as_text(),
        None => String::new(),
    };
    let version = match &v1 {
        Some(x) => x.as_text(),
        None => String::new(),
    };
    if args.len() < 3 {
        return Some(None);
    }
    let cell = match &args[2] {
        Node::Cell(c) => c.clone(),
        other => {
            let v = try_eval(other, sc)?;
            upper_string(v.as_text().as_str())
        },
    };
    let v3 = try_arg(args, 3, sc)?;
    let v4 = try_arg(args, 4, sc)?;
    let org = text_or_default(&v3, &sc.ctx.org);
    let period = text_or_default(&v4, &sc.ctx.period);
    if report.as_str().is_empty() || cell.as_str().is_empty() {
        return Some(None);
    }
    Some(Some((report, version, org, period, cell)))
}

fn try_sum(args: &Vec<Node>, sc: &Scope) -> (r: Option<FValue>)
    ensures
        opt_val(r) == sum_fold(nodes_view(args@), sc@, Dec::zero_val()),
    decreases args@, 1int,
{
    let ghost av = nodes_view(args@);
    proof {
        lemma_nodes_view(args@);
        assert(av.subrange(0, av.len() as int) =~= av);
    }
    let mut s = Dec::zero();
    let mut i: usize = 0;
    while i < args.len()
        invariant
            av == nodes_view(args@),
            av.len() == args@.len(),
            i <= av.len(),
            sum_fold(av, sc@, Dec::zero_val()) == sum_fold(av.subrange(i as int, av.len() as int), sc@, s),
        decreases av.len() - i,
    {
        let ghost rest = av.subrange(i as int, av.len() as int);
        proof {
            assert(rest[0] == av[i as int]);
            assert(rest.subrange(1, rest.len() as int) =~= av.subrange(i + 1, av.len() as int));
            assert(arg_nums_spec(rest, 0, sc@) == arg_nums_spec(av, i as int, sc@));
        }
        match try_arg_nums(args, i, sc) {
            Some(Ok(ns)) => {
                let t = dec_total(&ns)?;
                s = match dec_checked_add(s, t) {
                    Some(x) => x,
                    None => {
                        return None;
                    },
                };
            },
            Some(Err(e)) => {
                return Some(e);
            },
            None => {
                return None;
            },
        }
        i = i + 1;
    }
    proof {
        assert(av.subrange(i as int, av.len() as int) =~= Seq::<NodeV>::empty());
    }
    Some(FValue::Num(s))
}

fn try_nums(args: &Vec<Node>, sc: &Scope) -> (r: Option<Result<Vec<Dec>, FValue>>)
    ensures
        match nums_fold(nodes_view(args@), sc@) {
            Some(Ok(ns)) => r matches Some(Ok(v)) && v@ == ns,
            Some(Err(e)) => r matches Some(Err(x)) && x@ == e,
            None => r is None,
        },
    decreases args@, 1int,
{
    let ghost av = nodes_view(args@);
    proof {
        lemma_nodes_view(args@);
        assert(av.subrange(0, av.len() as int) =~= av);
    }
    let mut acc: Vec<Dec> = Vec::new();
    let mut i: usize = 0;
    while i < args.len()
        invariant
            av == nodes_view(args@),
            av.len() == args@.len(),
            i <= av.len(),
            nums_fold(av, sc@) == (match nums_fold(av.subrange(i as int, av.len() as int), sc@) {
                Some(Ok(rest)) => Some(Ok(acc@ + rest)),
                other => other,
            }),
        decreases av.len() - i,
    {
        let ghost rest = av.subrange(i as int, av.len() as int);
        proof {
            assert(rest[0] == av[i as int]);
            assert(rest.subrange(1, rest.len() as int) =~= av.subrange(i + 1, av.len() as int));
            assert(arg_nums_spec(rest, 0, sc@) == arg_nums_spec(av, i as int, sc@));
        }
        match try_arg_nums(args, i, sc) {
            Some(Ok(ns)) => {
                let ghost a0 = acc@;
                let mut k: usize = 0;
                while k < ns.len()
                    invariant
                        k <= ns@.len(),
                        acc@ == a0 + ns@.subrange(0, k as int),
                    decreases ns@.len() - k,
                {
                    acc.push(ns[k]);
                    k = k + 1;
                    assert(acc@ =~= a0 + ns@.subrange(0, k as int));
                }
                proof {
                    assert(ns@.subrange(0, ns@.len() as int) =~= ns@);
                    assert forall|tail: Seq<Dec>| #[trigger] (a0 + (ns@ + tail)) == (a0 + ns@) + tail by {
                        assert(a0 + (ns@ + tail) =~= (a0 + ns@) + tail);
                    }
                }
            },
            Some(Err(e)) => {
                return Some(Err(e));
            },
            None => {
                return None;
            },
        }
        i = i + 1;
    }
    proof {
        assert(av.subrange(i as int, av.len() as int) =~= Seq::<NodeV>::empty());
        assert(acc@ + Seq::<Dec>::empty() =~= acc@);
    }
    Some(Ok(acc))
}

fn min_or_max(ns: &Vec<Dec>, is_min: bool) -> (r: Dec)
    ensures
        r == (match (if is_min {
            min_first(ns@)
        } else {
            max_last(ns@)
        }) {
            Some(x) => x,
            None => Dec::zero_val(),
        }),
        ns@.len() > 0 ==> ns@.contains(r),
        ns@.len() > 0 && is_min ==> forall|i: int| 0 <= i < ns@.len() ==> (#[trigger] ns@[i]).val() >= r.val(),
        ns@.len() > 0 && !is_min ==> forall|i: int| 0 <= i < ns@.len() ==> (#[trigger] ns@[i]).val() <= r.val(),
{
    proof {
        if ns@.len() > 0 {
            lemma_max_last_order(ns@);
            lemma_min_first_order(ns@);
        }
    }
    let mut best: Option<Dec> = None;
    let mut i: usize = 0;
    proof {
        assert(ns@.subrange(0, 0) =~= Seq::<Dec>::empty());
    }
    while i < ns.len()
        invariant
            i <= ns@.len(),
            best == (if is_min {
                min_first(ns@.subrange(0, i as int))
            } else {
                max_last(ns@.subrange(0, i as int))
            }),
        decreases ns@.len() - i,
    {
        proof {
            let p = ns@.subrange(0, i + 1);
            assert(p.drop_last() =~= ns@.subrange(0, i as int));
            assert(p.last() == ns@[i as int]);
        }
        let x = ns[i];
        best = match best {
            Some(m) => if is_min {
                if x.lt(&m) {
                    Some(x)
                } else {
                    Some(m)
                }
            } else {
                if m.le(&x) {
                    Some(x)
                } else {
                    Some(m)
                }
            },
            None => Some(x),
        };
        i = i + 1;
    }
    proof {
        assert(ns@.subrange(0, ns@.len() as int) =~= ns@);
    }
    match best {
        Some(x) => x,
        None => Dec::zero(),
    }
}

fn try_logic(args: &Vec<Node>, sc: &Scope, is_and: bool) -> (r: Option<FValue>)
    ensures
        opt_val(r) == logic_fold(nodes_view(args@), sc@, is_and),
    decreases args@, 1int,
{
    let ghost av = nodes_view(args@);
    proof {
        lemma_nodes_view(args@);
        assert(av.subrange(0, av.len() as int) =~= av);
    }
    let mut i: usize = 0;
    while i < args.len()
        invariant
            av == nodes_view(args@),
            av.len() == args@.len(),
            i <= av.len(),
            logic_fold(av, sc@, is_and) == logic_fold(av.subrange(i as int, av.len() as int), sc@, is_and),
            forall|j: int| 0 <= j < args@.len() ==> #[trigger] av[j] == node_view(args@[j]),
        decreases av.len() - i,
    {
        let ghost rest = av.subrange(i as int, av.len() as int);
        proof {
            assert(rest[0] == av[i as int]);
            assert(rest.subrange(1, rest.len() as int) =~= av.subrange(i + 1, av.len() as int));
        }
        let v = try_eval(&args[i], sc)?;
        if v.is_error() {
            return Some(v);
        }
        if v.as_bool() != is_and {
            return Some(FValue::Bool(!is_and));
        }
        i = i + 1;
    }
    proof {
        assert(av.subrange(i as int, av.len() as int) =~= Seq::<NodeV>::empty());
    }
    Some(FValue::Bool(is_and))
}

fn try_coalesce(args: &Vec<Node>, sc: &Scope) -> (r: Option<FValue>)
    ensures
        opt_val(r) == coalesce_fold(nodes_view(args@), sc@),
    decreases args@, 1int,
{
    let ghost av = nodes_view(args@);
    proof {
        lemma_nodes_view(args@);
        assert(av.subrange(0, av.len() as int) =~= av);
    }
    let mut i: usize = 0;
    while i < args.len()
        invariant
            av == nodes_view(args@),
            av.len() == args@.len(),
            i <= av.len(),
            coalesce_fold(av, sc@) == coalesce_fold(av.subrange(i as int, av.len() as int), sc@),
            forall|j: int| 0 <= j < args@.len() ==> #[trigger] av[j] == node_view(args@[j]),
        decreases av.len() - i,
    {
        let ghost rest = av.subrange(i as int, av.len() as int);
        proof {
            assert(rest[0] == av[i as int]);
            assert(rest.subrange(1, rest.len() as int) =~= av.subrange(i + 1, av.len() as int));
        }
        let v = try_eval(&args[i], sc)?;
        if v.is_error() || !v.is_empty() {
            return Some(v);
        }
        i = i + 1;
    }
    proof {
        assert(av.subrange(i as int, av.len() as int) =~= Seq::<NodeV>::empty());
    }
    Some(FValue::Null)
}

fn try_call(name: &String, args: &Vec<Node>, sc: &Scope) -> (r: Option<FValue>)
    ensures
        opt_val(r) == call_spec(name@, nodes_view(args@), sc@),
    decreases args@, 2int,
{
    proof {
        lemma_nodes_view(args@);
    }
    let n = name.as_str();
    if is_fetch(n) {
        match try_fetch_key(n, args, sc) {
            Some(Some(k)) => Some(FValue::Num(lookup_fetch(&sc.fetches, &k))),
            Some(None) => Some(FValue::Error(copy_str("#ARG!"))),
            None => None,
        }
    } else if str_eq(n, "REF") {
        match try_ref_addr(args, sc) {
            Some(Some(a)) => {
                let k = addr_key(a.0.as_str(), a.1.as_str(), a.2.as_str(), a.3.as_str(), a.4.as_str());
                Some(lookup_val(&sc.refs, k.as_str()))
            },
            Some(None) => Some(FValue::Error(copy_str("#REF!"))),
            None => None,
        }
    } else if str_eq(n, "SUM") {
        try_sum(args, sc)
    } else if str_eq(n, "MIN") || str_eq(n, "MAX") {
        let is_min = str_eq(n, "MIN");
        match try_nums(args, sc) {
            Some(Ok(ns)) => Some(FValue::Num(min_or_max(&ns, is_min))),
            Some(Err(e)) => Some(e),
            None => None,
        }
    } else if str_eq(n, "ABS") || str_eq(n, "NOT") || str_eq(n, "ISEMPTY") || str_eq(n, "ROUND") {
        if args.len() == 0 {
            return None;
        }
        let v = try_eval(&args[0], sc)?;
        if str_eq(n, "ISEMPTY") {
            return Some(FValue::Bool(v.is_empty()));
        }
        if v.is_error() {
            return Some(v);
        }
        if str_eq(n, "ABS") {
            Some(FValue::Num(v.as_num().abs()))
        } else if str_eq(n, "NOT") {
            Some(FValue::Bool(!v.as_bool()))
        } else {
            let d = try_arg(args, 1, sc)?;
            let digits: u32 = match &d {
                Some(x) => match dec_to_u32(x.as_num()) {
                    Some(k) => k,
                    None => 0,
                },
                None => 0,
            };
            Some(FValue::Num(dec_round_dp(v.as_num(), digits)))
        }
    } else if str_eq(n, "IF") {
        if args.len() < 2 {
            return Some(FValue::Error(copy_str("#ARG!")));
        }
        let c = try_eval(&args[0], sc)?;
        if c.is_error() {
            return Some(c);
        }
        if c.as_bool() {
            try_eval(&args[1], sc)
        } else if args.len() > 2 {
            try_eval(&args[2], sc)
        } else {
            Some(FValue::Null)
        }
    } else if str_eq(n, "AND") {
        try_logic(args, sc, true)
    } else if str_eq(n, "OR") {
        try_logic(args, sc, false)
    } else if str_eq(n, "COALESCE") {
        try_coalesce(args, sc)
    } else {
        let mut t = copy_str("#NAME?");
        append_str(&mut t, n);
        Some(FValue::Error(t))
    }
}

/// Evaluates a node whose evaluation does not fail (see `try_eval`).
pub fn eval_node(node: &Node, sc: &Scope) -> (r: FValue)
    requires
        eval_spec(node_view(*node), sc@) is Some,
    ensures
        r@ == eval_spec(node_view(*node), sc@)->0,
{
    match try_eval(node, sc) {
        Some(v) => v,
        None => FValue::Null,
    }
}

/// The balance key a fetch call (`QM`, `QC`, `FS`, `JE`, `CG`, `IND`, `ELIM`) reads:
/// None for any other name. Its arguments must evaluate (see `try_eval`).
pub fn derive_balance_key(name: &str, args: &Vec<Node>, sc: &Scope) -> (r: Option<BalanceKey>)
    requires
        fetch_key_spec(name@, nodes_view(args@), sc@) is Some,
    ensures
        match fetch_key_spec(name@, nodes_view(args@), sc@)->0 {
            Some(k) => r matches Some(x) && x@ == k,
            None => r is None,
        },
{
    match try_fetch_key(name, args, sc) {
        Some(k) => k,
        None => None,
    }
}

/// The target (report, version, org, period, cell) of a `REF` call, None without a
/// report or a cell. Its arguments must evaluate (see `try_eval`).
pub fn derive_ref_addr(args: &Vec<Node>, sc: &Scope) -> (r: Option<(String, String, String, String, String)>)
    requires
        ref_addr_spec(nodes_view(args@), sc@) is Some,
    ensures
        match ref_addr_spec(nodes_view(args@), sc@)->0 {
            Some(k) => r matches Some(x) && x.0@ == k.0 && x.1@ == k.1 && x.2@ == k.2 && x.3@ == k.3
                && x.4@ == k.4,
            None => r is None,
        },
{
    match try_ref_addr(args, sc) {
        Some(k) => k,
        None => None,
    }
}

} // verus!
