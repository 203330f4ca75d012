//! Line-by-line aggregation of balances and flows into ordered maps.
use vstd::prelude::*;
use crate::decimal::{Dec, dec_mul, dec_mul_result, dec_checked_mul};
use crate::amount_map::{AmountMap, Entries, add_entry, add_entry_ok};
use crate::consol::types::{ConsolMethod, include_ratio_spec};
use crate::text::str_eq;

verus! {

/// One subordinate's contribution to its parent's consolidation.
#[derive(Clone, Debug)]
pub struct Contribution {
    pub entity: String,
    pub method: ConsolMethod,
    pub ownership: Dec,
    /// (group account, debit-positive amount).
    pub balances: Vec<(String, Dec)>,
}

/// Adds `amount × ratio` of every balance into a map (None on overflow).
pub open spec fn add_scaled(m: Option<Entries>, bs: Seq<(String, Dec)>, ratio: Dec) -> Option<Entries>
    decreases bs.len(),
{
    if bs.len() == 0 {
        m
    } else {
        match add_scaled(m, bs.drop_last(), ratio) {
            Some(m2) => match dec_mul_result(bs.last().1, ratio) {
                Some(x) => if add_entry_ok(m2, bs.last().0@, x) {
                    Some(add_entry(m2, bs.last().0@, x))
                } else {
                    None
                },
                None => None,
            },
            None => None,
        }
    }
}

/// The aggregate of contributions: each balance times its inclusion ratio, summed
/// per account; contributions with a zero ratio are skipped.
pub open spec fn aggregate_spec(cs: Seq<Contribution>) -> Option<Entries>
    decreases cs.len(),
{
    if cs.len() == 0 {
        Some(Seq::empty())
    } else {
        let c = cs.last();
        let ratio = include_ratio_spec(c.method, c.ownership);
        let prev = aggregate_spec(cs.drop_last());
        if ratio.val() == 0 {
            prev
        } else {
            add_scaled(prev, c.balances@, ratio)
        }
    }
}

/// How a contribution enters the aggregate, by its consolidation method: under full
/// consolidation each balance at 100% (times one); under proportional consolidation
/// each balance times the ownership (not at all where the ownership is zero); under
/// the equity and cost methods not at all.
pub proof fn lemma_aggregate_by_method(cs: Seq<Contribution>)
    requires
        cs.len() > 0,
    ensures
        cs.last().method is Full ==> aggregate_spec(cs) == add_scaled(
            aggregate_spec(cs.drop_last()),
            cs.last().balances@,
            Dec::one_val(),
        ),
        cs.last().method is Proportional && cs.last().ownership.val() != 0 ==> aggregate_spec(cs) == add_scaled(
            aggregate_spec(cs.drop_last()),
            cs.last().balances@,
            cs.last().ownership,
        ),
        cs.last().method is Proportional && cs.last().ownership.val() == 0 ==> aggregate_spec(cs) == aggregate_spec(
            cs.drop_last(),
        ),
        (cs.last().method is Equity || cs.last().method is Cost) ==> aggregate_spec(cs) == aggregate_spec(cs.drop_last()),
{
    Dec::lemma_zero_one();
    crate::decimal::lemma_pow10_pos(28);
}

proof fn lemma_add_scaled_none(bs: Seq<(String, Dec)>, ratio: Dec)
    ensures
        add_scaled(None, bs, ratio) is None,
    decreases bs.len(),
{
    if bs.len() > 0 {
        lemma_add_scaled_none(bs.drop_last(), ratio);
    }
}

proof fn lemma_aggregate_prefix(cs: Seq<Contribution>, k: int)
    requires
        0 <= k <= cs.len(),
        aggregate_spec(cs) is Some,
    ensures
        aggregate_spec(cs.subrange(0, k)) is Some,
    decreases cs.len() - k,
{
    if k < cs.len() {
        lemma_aggregate_prefix(cs, k + 1);
        let a = cs.subrange(0, k + 1);
        assert(a.drop_last() =~= cs.subrange(0, k));
        let c = a.last();
        let ratio = include_ratio_spec(c.method, c.ownership);
        if ratio.val() != 0 && aggregate_spec(a.drop_last()) is None {
            lemma_add_scaled_none(c.balances@, ratio);
        }
    } else {
        assert(cs.subrange(0, k) =~= cs);
    }
}

proof fn lemma_add_scaled_prefix(m: Option<Entries>, bs: Seq<(String, Dec)>, ratio: Dec, k: int)
    requires
        0 <= k <= bs.len(),
        add_scaled(m, bs, ratio) is Some,
    ensures
        add_scaled(m, bs.subrange(0, k), ratio) is Some,
    decreases bs.len() - k,
{
    if k < bs.len() {
        lemma_add_scaled_prefix(m, bs, ratio, k + 1);
        assert(bs.subrange(0, k + 1).drop_last() =~= bs.subrange(0, k));
    } else {
        assert(bs.subrange(0, k) =~= bs);
    }
}

/// Individual aggregation: each contribution's balances times its inclusion ratio
/// (Full 1, Proportional the ownership, Equity/Cost 0), summed per account, ordered
/// by account code.
pub fn aggregate(children: &[Contribution]) -> (r: AmountMap)
    requires
        aggregate_spec(children@) is Some,
    ensures
        r@ == aggregate_spec(children@)->0,
{
    match try_aggregate(children) {
        Some(m) => m,
        None => AmountMap::new(),
    }
}

/// The aggregation, or None where a product or a sum overflows.
pub fn try_aggregate(children: &[Contribution]) -> (r: Option<AmountMap>)
    ensures
        match aggregate_spec(children@) {
            Some(m) => r matches Some(x) && x@ == m,
            None => r is None,
        },
{
    let mut out = AmountMap::new();
    let mut i: usize = 0;
    proof {
        assert(children@.subrange(0, 0) =~= Seq::<Contribution>::empty());
    }
    while i < children.len()
        invariant
            i <= children@.len(),
            aggregate_spec(children@.subrange(0, i as int)) == Some(out@),
        decreases children@.len() - i,
    {
        let ghost pre = children@.subrange(0, i as int);
        let ghost nxt = children@.subrange(0, i + 1);
        proof {
            assert(nxt.drop_last() =~= pre);
            assert(nxt.last() == children@[i as int]);
        }
        let c = &children[i];
        let ratio = c.method.include_ratio(c.ownership);
        if !ratio.is_zero() {
            let ghost start = out@;
            let mut j: usize = 0;
            proof {
                assert(c.balances@.subrange(0, 0) =~= Seq::<(String, Dec)>::empty());
            }
            while j < c.balances.len()
                invariant
                    j <= c.balances@.len(),
                    i < children@.len(),
                    *c == children@[i as int],
                    pre == children@.subrange(0, i as int),
                    nxt == children@.subrange(0, i + 1),
                    aggregate_spec(pre) == Some(start),
                    ratio == include_ratio_spec(c.method, c.ownership),
                    ratio.val() != 0,
                    add_scaled(Some(start), c.balances@.subrange(0, j as int), ratio) == Some(out@),
                decreases c.balances@.len() - j,
            {
                let ghost b = c.balances@;
                proof {
                    assert(b.subrange(0, j + 1).drop_last() =~= b.subrange(0, j as int));
                    assert(b.subrange(0, j + 1).last() == b[j as int]);
                }
                let x = match dec_checked_mul(c.balances[j].1, ratio) {
                    Some(x) => x,
                    None => {
                        proof {
                            lemma_scaled_failed(children@, i as int, j as int);
                        }
                        return None;
                    },
                };
                if !out.can_add(c.balances[j].0.as_str(), x) {
                    proof {
                        lemma_scaled_failed(children@, i as int, j as int);
                    }
                    return None;
                }
                out.add_to(c.balances[j].0.as_str(), x);
                j = j + 1;
            }
            proof {
                assert(c.balances@.subrange(0, c.balances@.len() as int) =~= c.balances@);
            }
        }
        i = i + 1;
    }
    proof {
        assert(children@.subrange(0, children@.len() as int) =~= children@);
    }
    Some(out)
}

/// When the scaled sum of child `i` fails at its `j`-th balance, so does the whole.
proof fn lemma_scaled_failed(cs: Seq<Contribution>, i: int, j: int)
    requires
        0 <= i < cs.len(),
        0 <= j < cs[i].balances@.len(),
        include_ratio_spec(cs[i].method, cs[i].ownership).val() != 0,
        aggregate_spec(cs.subrange(0, i)) is Some,
        add_scaled(aggregate_spec(cs.subrange(0, i)), cs[i].balances@.subrange(0, j + 1), include_ratio_spec(cs[i].method, cs[i].ownership))
            is None,
    ensures
        aggregate_spec(cs) is None,
{
    let c = cs[i];
    let ratio = include_ratio_spec(c.method, c.ownership);
    let nxt = cs.subrange(0, i + 1);
    assert(nxt.drop_last() =~= cs.subrange(0, i));
    assert(nxt.last() == c);
    if add_scaled(aggregate_spec(cs.subrange(0, i)), c.balances@, ratio) is Some {
        lemma_add_scaled_prefix(aggregate_spec(cs.subrange(0, i)), c.balances@, ratio, j + 1);
    }
    if aggregate_spec(cs) is Some {
        lemma_aggregate_prefix(cs, i + 1);
    }
}

/// One cash-flow item row of an entity (debit-positive: inflow +, outflow −).
#[derive(Clone, Debug)]
pub struct CashFlowRow {
    pub entity: String,
    /// operating / investing / financing.
    pub activity: String,
    pub item_code: String,
    pub amount: Dec,
    /// An intragroup cash flow (eliminated on consolidation).
    pub is_intercompany: bool,
}

/// One equity-change row (debit-positive).
#[derive(Clone, Debug)]
pub struct EquityChangeRow {
    pub entity: String,
    /// Statement column code (EC01 ...).
    pub column_code: String,
    pub equity_item: String,
    pub change_type: String,
    pub amount: Dec,
}

/// Whether a code is among the members.
pub open spec fn is_member(members: Seq<String>, e: Seq<char>) -> bool {
    exists|i: int| 0 <= i < members.len() && (#[trigger] members[i])@ == e
}

fn member(members: &[String], e: &str) -> (r: bool)
    ensures
        r == is_member(members@, e@),
{
    let mut i: usize = 0;
    while i < members.len()
        invariant
            i <= members@.len(),
            forall|j: int| 0 <= j < i ==> (#[trigger] members@[j])@ != e@,
        decreases members@.len() - i,
    {
        if str_eq(members[i].as_str(), e) {
            return true;
        }
        i = i + 1;
    }
    false
}

/// Sums keyed rows into a map, skipping the rows `keep` rejects (None on overflow).
pub open spec fn sum_rows(rows: Seq<(Seq<char>, Dec, bool)>) -> Option<Entries>
    decreases rows.len(),
{
    if rows.len() == 0 {
        Some(Seq::empty())
    } else {
        let (k, v, keep) = rows.last();
        match sum_rows(rows.drop_last()) {
            Some(m) => if !keep {
                Some(m)
            } else if add_entry_ok(m, k, v) {
                Some(add_entry(m, k, v))
            } else {
                None
            },
            None => None,
        }
    }
}

pub proof fn lemma_sum_rows_prefix(rows: Seq<(Seq<char>, Dec, bool)>, k: int)
    requires
        0 <= k <= rows.len(),
        sum_rows(rows) is Some,
    ensures
        sum_rows(rows.subrange(0, k)) is Some,
    decreases rows.len() - k,
{
    if k < rows.len() {
        lemma_sum_rows_prefix(rows, k + 1);
        assert(rows.subrange(0, k + 1).drop_last() =~= rows.subrange(0, k));
    } else {
        assert(rows.subrange(0, k) =~= rows);
    }
}

/// The cash-flow rows as keyed rows: kept when the entity is a member and the flow
/// is not intragroup.
pub open spec fn cash_flow_keyed(rows: Seq<CashFlowRow>, members: Seq<String>) -> Seq<(Seq<char>, Dec, bool)> {
    rows.map_values(
        |r: CashFlowRow| (r.item_code@, r.amount, is_member(members, r.entity@) && !r.is_intercompany),
    )
}

/// The equity-change rows as keyed rows: kept when the entity is a member and the
/// column code is not empty.
pub open spec fn equity_change_keyed(rows: Seq<EquityChangeRow>, members: Seq<String>) -> Seq<(Seq<char>, Dec, bool)> {
    rows.map_values(
        |r: EquityChangeRow| (r.column_code@, r.amount, is_member(members, r.entity@) && r.column_code@.len() > 0),
    )
}

/// Cash-flow aggregation at a consolidation node: the rows of member entities,
/// intragroup flows left out (they cancel within the group), summed per item code.
pub fn aggregate_cash_flow(rows: &[CashFlowRow], members: &[String]) -> (r: AmountMap)
    requires
        sum_rows(cash_flow_keyed(rows@, members@)) is Some,
    ensures
        r@ == sum_rows(cash_flow_keyed(rows@, members@))->0,
{
    let ghost kr = cash_flow_keyed(rows@, members@);
    let mut out = AmountMap::new();
    let mut i: usize = 0;
    proof {
        assert(kr.subrange(0, 0) =~= Seq::<(Seq<char>, Dec, bool)>::empty());
    }
    while i < rows.len()
        invariant
            i <= rows@.len(),
            kr == cash_flow_keyed(rows@, members@),
            sum_rows(kr) is Some,
            sum_rows(kr.subrange(0, i as int)) == Some(out@),
        decreases rows@.len() - i,
    {
        proof {
            lemma_sum_rows_prefix(kr, i + 1);
            assert(kr.subrange(0, i + 1).drop_last() =~= kr.subrange(0, i as int));
            assert(kr.subrange(0, i + 1).last() == kr[i as int]);
        }
        let r = &rows[i];
        if member(members, r.entity.as_str()) && !r.is_intercompany {
            out.add_to(r.item_code.as_str(), r.amount);
        }
        i = i + 1;
    }
    proof {
        assert(kr.subrange(0, kr.len() as int) =~= kr);
    }
    out
}

/// Equity-change aggregation at a consolidation node: member rows summed per column
/// code (rows without a column code are skipped; no intragroup elimination here).
pub fn aggregate_equity_change(rows: &[EquityChangeRow], members: &[String]) -> (r: AmountMap)
    requires
        sum_rows(equity_change_keyed(rows@, members@)) is Some,
    ensures
        r@ == sum_rows(equity_change_keyed(rows@, members@))->0,
{
    let ghost kr = equity_change_keyed(rows@, members@);
    let mut out = AmountMap::new();
    let mut i: usize = 0;
    proof {
        assert(kr.subrange(0, 0) =~= Seq::<(Seq<char>, Dec, bool)>::empty());
    }
    while i < rows.len()
        invariant
            i <= rows@.len(),
            kr == equity_change_keyed(rows@, members@),
            sum_rows(kr) is Some,
            sum_rows(kr.subrange(0, i as int)) == Some(out@),
        decreases rows@.len() - i,
    {
        proof {
            lemma_sum_rows_prefix(kr, i + 1);
            assert(kr.subrange(0, i + 1).drop_last() =~= kr.subrange(0, i as int));
            assert(kr.subrange(0, i + 1).last() == kr[i as int]);
        }
        let r = &rows[i];
        if member(members, r.entity.as_str()) && !r.column_code.as_str().is_empty() {
            out.add_to(r.column_code.as_str(), r.amount);
        }
        i = i + 1;
    }
    proof {
        assert(kr.subrange(0, kr.len() as int) =~= kr);
    }
    out
}

} // verus!
