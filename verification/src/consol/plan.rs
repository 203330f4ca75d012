//! What a consolidation node books: the rules it reads, the subsidiary figures the
//! entries are computed from, and the list of entries each kind of item gives.
use vstd::prelude::*;
use crate::decimal::{Dec, dec_checked_add, dec_checked_sub, dec_checked_mul, dec_add_result, dec_sub_result, dec_mul_result};
use crate::amount_map::{AmountMap, Entries, entries_view};
use crate::consol::types::{ElimEntry, ScopeNode, ConsolMethod};
use crate::consol::consolidate::{
    ElimRule, ConsolInput, NodeResult, StepTxn, ConsolError, first_dec, latest_result, last_node, kids_of, or_empty, find_dec,
    find_result, find_node, overflow, capital_ok,
};
use crate::consol::engine::{
    capital_elimination, common_control_elimination, minority_pl, debt_elimination, sales_elimination, dividend_elimination,
    inventory_profit_elimination, fixed_asset_profit_elimination, equity_pickup, goodwill_impairment, step_acquisition, disposal,
};
use crate::consol::run::{find_members, same_child_subtree, contains_code};
use crate::order::views;
use crate::consol::engine::{
    CapitalCfg, IcMatch, InventoryProfit, FixedAssetProfit, header_is, capital_lines_are, capital_amounts, pair_is,
    minority_amount, ic_entries_are, dr_cr_entry_is, depreciation_applies, excess_depreciation, disposal_amount,
    fold_amounts,
};
use crate::consol::run::{has_code, subtree_of, subtree_lookup, holds_both, same_child_spec};
use crate::formula::eval::{str_lookup, find_str};
use crate::text::{str_eq, copy_str};

verus! {

/// The first rule of a type.
pub open spec fn rule_of(rules: Seq<ElimRule>, t: Seq<char>) -> Option<ElimRule>
    decreases rules.len(),
{
    if rules.len() == 0 {
        None
    } else if rules[0].elim_type@ == t {
        Some(rules[0])
    } else {
        rule_of(rules.subrange(1, rules.len() as int), t)
    }
}

/// A rule's code, or a default where there is no rule.
pub open spec fn code_or_spec(r: Option<ElimRule>, dflt: Seq<char>) -> Seq<char> {
    match r {
        Some(x) => x.rule_code@,
        None => dflt,
    }
}

/// A text where it is not empty, else a default.
pub open spec fn text_or(t: Option<Seq<char>>, dflt: Seq<char>) -> Seq<char> {
    match t {
        Some(x) => if x.len() > 0 {
            x
        } else {
            dflt
        },
        None => dflt,
    }
}

/// A rule's debit account.
pub open spec fn rule_dr(r: Option<ElimRule>) -> Option<Seq<char>> {
    match r {
        Some(x) => Some(x.dr_account@),
        None => None,
    }
}

/// A rule's credit account.
pub open spec fn rule_cr(r: Option<ElimRule>) -> Option<Seq<char>> {
    match r {
        Some(x) => Some(x.cr_account@),
        None => None,
    }
}

/// Whether an account's type is one of two names.
pub open spec fn type_in(types: Seq<(String, String)>, a: Seq<char>, x: Seq<char>, y: Seq<char>) -> bool {
    match str_lookup(types, a) {
        Some(t) => t == x || t == y,
        None => false,
    }
}

/// The equity balances of a subsidiary, the translation difference account left out,
/// in account order.
pub open spec fn equity_entries(bal: Entries, types: Seq<(String, String)>, cta: Seq<char>) -> Entries
    decreases bal.len(),
{
    if bal.len() == 0 {
        Seq::empty()
    } else {
        let prev = equity_entries(bal.drop_last(), types, cta);
        let (a, v) = bal.last();
        if a != cta && type_in(types, a, "equity"@, "权益"@) {
            prev.push((a, v))
        } else {
            prev
        }
    }
}

/// An income or expense account.
pub open spec fn is_pl_account(types: Seq<(String, String)>, a: Seq<char>) -> bool {
    type_in(types, a, "income"@, "expense"@) || type_in(types, a, "收入"@, "费用"@)
}

/// The running total of the income and expense balances (debit-positive; None on
/// overflow).
pub open spec fn pl_total(bal: Entries, types: Seq<(String, String)>) -> Option<Dec>
    decreases bal.len(),
{
    if bal.len() == 0 {
        Some(Dec::zero_val())
    } else {
        match pl_total(bal.drop_last(), types) {
            None => None,
            Some(s) => if is_pl_account(types, bal.last().0) {
                dec_add_result(s, bal.last().1)
            } else {
                Some(s)
            },
        }
    }
}

/// The first rule of a type.
pub fn rule_for<'b>(rules: &'b Vec<ElimRule>, t: &str) -> (r: Option<&'b ElimRule>)
    ensures
        match rule_of(rules@, t@) {
            Some(x) => r matches Some(y) && *y == x,
            None => r is None,
        },
{
    let mut i: usize = 0;
    proof {
        assert(rules@.subrange(0, rules@.len() as int) =~= rules@);
    }
    while i < rules.len()
        invariant
            i <= rules@.len(),
            rule_of(rules@, t@) == rule_of(rules@.subrange(i as int, rules@.len() as int), t@),
        decreases rules@.len() - i,
    {
        let ghost rest = rules@.subrange(i as int, rules@.len() as int);
        proof {
            assert(rest[0] == rules@[i as int]);
            assert(rest.subrange(1, rest.len() as int) =~= rules@.subrange(i + 1, rules@.len() as int));
        }
        if str_eq(rules[i].elim_type.as_str(), t) {
            return Some(&rules[i]);
        }
        i = i + 1;
    }
    None
}

/// A rule's code, or a default.
pub fn code_or(r: Option<&ElimRule>, dflt: &str) -> (s: String)
    ensures
        match r {
            Some(x) => s@ == x.rule_code@,
            None => s@ == dflt@,
        },
{
    match r {
        Some(x) => copy_str(x.rule_code.as_str()),
        None => copy_str(dflt),
    }
}

/// A non-empty text, or a default.
pub fn nonempty_or(t: Option<&String>, dflt: &str) -> (s: String)
    ensures
        match t {
            Some(x) => s@ == (if x@.len() > 0 {
                x@
            } else {
                dflt@
            }),
            None => s@ == dflt@,
        },
{
    match t {
        Some(x) => if x.as_str().is_empty() {
            copy_str(dflt)
        } else {
            copy_str(x.as_str())
        },
        None => copy_str(dflt),
    }
}

/// Whether an account's type is one of two names.
pub fn type_is(types: &Vec<(String, String)>, a: &str, x: &str, y: &str) -> (r: bool)
    ensures
        r == type_in(types@, a@, x@, y@),
{
    match find_str(types, a) {
        Some(t) => str_eq(t.as_str(), x) || str_eq(t.as_str(), y),
        None => false,
    }
}

/// The equity balances of a subsidiary, the translation difference account left out.
pub fn equity_lines(bal: &AmountMap, types: &Vec<(String, String)>, cta: &str) -> (r: Vec<(String, Dec)>)
    ensures
        entries_view(r@) == equity_entries(bal@, types@, cta@),
{
    let mut out: Vec<(String, Dec)> = Vec::new();
    let mut i: usize = 0;
    proof {
        assert(bal@.subrange(0, 0) =~= Seq::<(Seq<char>, Dec)>::empty());
        assert(entries_view(out@) =~= Seq::<(Seq<char>, Dec)>::empty());
    }
    while i < bal.len()
        invariant
            i <= bal@.len(),
            entries_view(out@) == equity_entries(bal@.subrange(0, i as int), types@, cta@),
        decreases bal@.len() - i,
    {
        let ghost p = bal@.subrange(0, i + 1);
        proof {
            assert(p.drop_last() =~= bal@.subrange(0, i as int));
            assert(p.last() == bal@[i as int]);
        }
        let (a, v) = bal.entry(i);
        if !str_eq(a, cta) && type_is(types, a, "equity", "权益") {
            let ghost before = out@;
            out.push((copy_str(a), v));
            proof {
                assert(entries_view(out@) =~= entries_view(before).push((a@, v)));
            }
        }
        i = i + 1;
    }
    proof {
        assert(bal@.subrange(0, bal@.len() as int) =~= bal@);
    }
    out
}

/// How one balance moves the profit total: a balance on an account typed income,
/// expense, 收入 or 费用 is added to it (an expense balance raises the debit-positive
/// total, lowering the profit by its amount); a balance on any other account, or on
/// one without a type, leaves it unchanged.
pub proof fn lemma_pl_total_step(bal: Entries, types: Seq<(String, String)>)
    requires
        bal.len() > 0,
    ensures
        (str_lookup(types, bal.last().0) matches Some(t) && (t == "income"@ || t == "expense"@ || t == "收入"@ || t
            == "费用"@)) ==> pl_total(bal, types) == match pl_total(bal.drop_last(), types) {
            Some(s) => dec_add_result(s, bal.last().1),
            None => None,
        },
        !(str_lookup(types, bal.last().0) matches Some(t) && (t == "income"@ || t == "expense"@ || t == "收入"@ || t
            == "费用"@)) ==> pl_total(bal, types) == pl_total(bal.drop_last(), types),
{
}

proof fn lemma_pl_total_none(bal: Entries, types: Seq<(String, String)>, k: int)
    requires
        0 <= k <= bal.len(),
        pl_total(bal.subrange(0, k), types) is None,
    ensures
        pl_total(bal, types) is None,
    decreases bal.len() - k,
{
    if k < bal.len() {
        assert(bal.subrange(0, k + 1).drop_last() =~= bal.subrange(0, k));
        lemma_pl_total_none(bal, types, k + 1);
    } else {
        assert(bal.subrange(0, k) =~= bal);
    }
}

/// The total of the income and expense balances (None on overflow).
pub fn pl_sum(bal: &AmountMap, types: &Vec<(String, String)>) -> (r: Option<Dec>)
    ensures
        r == pl_total(bal@, types@),
{
    let mut sum = Dec::zero();
    let mut i: usize = 0;
    proof {
        assert(bal@.subrange(0, 0) =~= Seq::<(Seq<char>, Dec)>::empty());
    }
    while i < bal.len()
        invariant
            i <= bal@.len(),
            pl_total(bal@.subrange(0, i as int), types@) == Some(sum),
        decreases bal@.len() - i,
    {
        let ghost p = bal@.subrange(0, i + 1);
        proof {
            assert(p.drop_last() =~= bal@.subrange(0, i as int));
            assert(p.last() == bal@[i as int]);
        }
        let (a, v) = bal.entry(i);
        if type_is(types, a, "income", "expense") || type_is(types, a, "收入", "费用") {
            match dec_checked_add(sum, v) {
                Some(s) => {
                    sum = s;
                },
                None => {
                    proof {
                        lemma_pl_total_none(bal@, types@, i + 1);
                    }
                    return None;
                },
            }
        }
        i = i + 1;
    }
    proof {
        assert(bal@.subrange(0, bal@.len() as int) =~= bal@);
    }
    Some(sum)
}

/// Moves the entries of `src` to the end of `dst`.
pub fn push_all(dst: &mut Vec<ElimEntry>, src: Vec<ElimEntry>)
    ensures
        final(dst)@ == old(dst)@ + src@,
{
    let mut src = src;
    dst.append(&mut src);
}

// ----------------------------------------------------------------------------
// The entries a node books, kind by kind
// ----------------------------------------------------------------------------
/// One call of an entry builder, with the arguments a node hands it.
pub enum ElimCall {
    /// Capital elimination of a subsidiary (common control: the excess to the capital
    /// reserve instead of goodwill).
    Capital { equity: Entries, investment: Dec, ownership: Dec, rule: Seq<char>, common: bool },
    /// The minority share of a subsidiary's profit.
    Minority { net_profit: Dec, ownership: Dec, rule: Seq<char> },
    /// An intercompany debt.
    Debt { m: IcMatch, dr: Seq<char>, cr: Seq<char>, rule: Seq<char> },
    /// Intercompany sales.
    Sales { m: IcMatch, dr: Seq<char>, cr: Seq<char>, rule: Seq<char> },
    /// An intercompany dividend.
    Dividend { m: IcMatch, income: Seq<char>, retained: Seq<char>, rule: Seq<char> },
    /// Unrealised profit in inventory.
    Inventory {
        p: InventoryProfit,
        cost: Seq<char>,
        inventory: Seq<char>,
        opening_re: Seq<char>,
        rule: Seq<char>,
        opening_rule: Seq<char>,
    },
    /// Unrealised profit in a fixed asset.
    FixedAsset {
        p: FixedAssetProfit,
        gain: Seq<char>,
        asset: Seq<char>,
        accum_dep: Seq<char>,
        expense: Seq<char>,
        rule: Seq<char>,
        dep_rule: Seq<char>,
    },
    /// The equity-method pick-up of an associate.
    Pickup { net_profit: Dec, ownership: Dec, investment_acc: Seq<char>, income_acc: Seq<char>, rule: Seq<char> },
    /// Goodwill impairment.
    Goodwill { amount: Dec, goodwill_acc: Seq<char>, impairment_acc: Seq<char>, rule: Seq<char> },
    /// A staged acquisition: the previous holding remeasured.
    StepAcq { prev_carrying: Dec, prev_fair_value: Dec, investment_acc: Seq<char>, gain_acc: Seq<char>, rule: Seq<char> },
    /// A disposal.
    Disposal {
        loses_control: bool,
        proceeds: Dec,
        disposed_share: Dec,
        retained_fair_value: Dec,
        net_assets_share: Dec,
        nci_acc: Seq<char>,
        reserve_acc: Seq<char>,
        gain_acc: Seq<char>,
        rule: Seq<char>,
    },
}

/// An optional entry as a list: none when `x` is zero, else one entry `ok` accepts.
pub open spec fn one_unless_zero(seg: Seq<ElimEntry>, x: Dec, ok: spec_fn(ElimEntry) -> bool) -> bool {
    &&& seg.len() == (if x.val() == 0 {
        0int
    } else {
        1int
    })
    &&& seg.len() == 1 ==> ok(seg[0])
}

/// The capital entry of a subsidiary, given its equity balances.
pub open spec fn capital_entry_is(e: ElimEntry, se: Seq<(String, Dec)>, investment: Dec, ownership: Dec, rule: Seq<char>, common: bool, cfg: CapitalCfg) -> bool {
    &&& capital_amounts(se, investment, ownership) is Some
    &&& header_is(e, if common {
        "capital_common_control"@
    } else {
        "capital"@
    }, rule, false)
    &&& capital_lines_are(
        e.lines@,
        se,
        investment,
        cfg,
        if common {
            cfg.capital_reserve_account@
        } else {
            cfg.goodwill_account@
        },
        capital_amounts(se, investment, ownership)->0,
    )
}

/// What one call gives: the entries its builder's contract describes.
pub open spec fn call_gives(c: ElimCall, cfg: CapitalCfg, seg: Seq<ElimEntry>) -> bool {
    match c {
        ElimCall::Capital { equity, investment, ownership, rule, common } => {
            &&& seg.len() == 1
            &&& exists|se: Seq<(String, Dec)>|
                #![trigger entries_view(se)]
                entries_view(se) == equity && capital_entry_is(seg[0], se, investment, ownership, rule, common, cfg)
        },
        ElimCall::Minority { net_profit, ownership, rule } => {
            &&& minority_amount(net_profit, ownership) is Some
            &&& one_unless_zero(
                seg,
                minority_amount(net_profit, ownership)->0,
                |e: ElimEntry|
                    pair_is(e, "nci"@, rule, cfg.minority_pl_account@, cfg.nci_account@, minority_amount(net_profit, ownership)->0),
            )
        },
        ElimCall::Debt { m, dr, cr, rule } => ic_entries_are(seg, seq![m], "debt"@, rule, dr, cr, true),
        ElimCall::Sales { m, dr, cr, rule } => ic_entries_are(seg, seq![m], "sales"@, rule, dr, cr, false),
        ElimCall::Dividend { m, income, retained, rule } => ic_entries_are(seg, seq![m], "dividend"@, rule, income, retained, false),
        ElimCall::Inventory { p, cost, inventory, opening_re, rule, opening_rule } => {
            &&& seg.len() == (if p.opening.val() != 0 {
                1int
            } else {
                0int
            }) + (if p.ending.val() != 0 {
                1int
            } else {
                0int
            })
            &&& p.opening.val() != 0 ==> dr_cr_entry_is(seg[0], "inventory_opening"@, opening_rule, true, opening_re, cost, p.opening, None, Some(p.seller@))
            &&& p.ending.val() != 0 ==> dr_cr_entry_is(seg[seg.len() - 1], "inventory"@, rule, false, cost, inventory, p.ending, Some(p.seller@), Some(p.buyer@))
        },
        ElimCall::FixedAsset { p, gain, asset, accum_dep, expense, rule, dep_rule } => {
            let has_first = p.unrealized.val() != 0;
            let has_dep = depreciation_applies(p) && excess_depreciation(p)->0.val() != 0;
            &&& depreciation_applies(p) ==> excess_depreciation(p) is Some
            &&& seg.len() == (if has_first {
                1int
            } else {
                0int
            }) + (if has_dep {
                1int
            } else {
                0int
            })
            &&& has_first ==> dr_cr_entry_is(seg[0], "fixed_asset_profit"@, rule, false, gain, asset, p.unrealized, Some(p.seller@), Some(p.buyer@))
            &&& has_dep ==> pair_is(seg[seg.len() - 1], "fixed_asset_depreciation"@, dep_rule, accum_dep, expense, excess_depreciation(p)->0)
        },
        ElimCall::Pickup { net_profit, ownership, investment_acc, income_acc, rule } => {
            &&& dec_mul_result(ownership, net_profit) is Some
            &&& one_unless_zero(
                seg,
                dec_mul_result(ownership, net_profit)->0,
                |e: ElimEntry| pair_is(e, "equity_method"@, rule, investment_acc, income_acc, dec_mul_result(ownership, net_profit)->0),
            )
        },
        ElimCall::Goodwill { amount, goodwill_acc, impairment_acc, rule } => one_unless_zero(
            seg,
            amount,
            |e: ElimEntry| pair_is(e, "goodwill_impair"@, rule, impairment_acc, goodwill_acc, amount),
        ),
        ElimCall::StepAcq { prev_carrying, prev_fair_value, investment_acc, gain_acc, rule } => {
            &&& dec_sub_result(prev_fair_value, prev_carrying) is Some
            &&& one_unless_zero(
                seg,
                dec_sub_result(prev_fair_value, prev_carrying)->0,
                |e: ElimEntry| pair_is(e, "step_acquisition"@, rule, investment_acc, gain_acc, dec_sub_result(prev_fair_value, prev_carrying)->0),
            )
        },
        ElimCall::Disposal {
            loses_control,
            proceeds,
            disposed_share,
            retained_fair_value,
            net_assets_share,
            nci_acc,
            reserve_acc,
            gain_acc,
            rule,
        } => {
            let x = disposal_amount(loses_control, proceeds, disposed_share, retained_fair_value, net_assets_share);
            &&& x is Some
            &&& one_unless_zero(
                seg,
                x->0,
                |e: ElimEntry| if loses_control {
                    pair_is(e, "disposal_loss_control"@, rule, gain_acc, nci_acc, x->0.neg_val())
                } else {
                    pair_is(e, "disposal_equity_txn"@, rule, reserve_acc, nci_acc, x->0.neg_val())
                },
            )
        },
    }
}

/// The entries of several lists, one after another.
pub open spec fn concat(segs: Seq<Seq<ElimEntry>>) -> Seq<ElimEntry>
    decreases segs.len(),
{
    if segs.len() == 0 {
        Seq::empty()
    } else {
        concat(segs.drop_last()) + segs.last()
    }
}

/// `v` is what the calls give, list after list.
pub open spec fn plan_with(calls: Seq<ElimCall>, cfg: CapitalCfg, v: Seq<ElimEntry>, segs: Seq<Seq<ElimEntry>>) -> bool {
    &&& segs.len() == calls.len()
    &&& concat(segs) == v
    &&& forall|i: int| 0 <= i < calls.len() ==> call_gives(#[trigger] calls[i], cfg, segs[i])
}

/// The entries are what the calls give, in call order.
pub open spec fn plan_gives(calls: Seq<ElimCall>, cfg: CapitalCfg, v: Seq<ElimEntry>) -> bool {
    exists|segs: Seq<Seq<ElimEntry>>| #[trigger] plan_with(calls, cfg, v, segs)
}

pub proof fn lemma_concat_add(a: Seq<Seq<ElimEntry>>, b: Seq<Seq<ElimEntry>>)
    ensures
        concat(a + b) == concat(a) + concat(b),
    decreases b.len(),
{
    if b.len() == 0 {
        assert(a + b =~= a);
        assert(concat(a) + concat(b) =~= concat(a));
    } else {
        assert((a + b).drop_last() =~= a + b.drop_last());
        assert((a + b).last() == b.last());
        lemma_concat_add(a, b.drop_last());
        assert(concat(a) + concat(b) =~= concat(a) + concat(b.drop_last()) + b.last());
    }
}

/// The calls and entries of two parts, one after the other.
pub proof fn lemma_plan_append(c1: Seq<ElimCall>, c2: Seq<ElimCall>, cfg: CapitalCfg, v1: Seq<ElimEntry>, v2: Seq<ElimEntry>)
    requires
        plan_gives(c1, cfg, v1),
        plan_gives(c2, cfg, v2),
    ensures
        plan_gives(c1 + c2, cfg, v1 + v2),
{
    let s1 = choose|s: Seq<Seq<ElimEntry>>| #[trigger] plan_with(c1, cfg, v1, s);
    let s2 = choose|s: Seq<Seq<ElimEntry>>| #[trigger] plan_with(c2, cfg, v2, s);
    lemma_concat_add(s1, s2);
    assert forall|i: int| 0 <= i < (c1 + c2).len() implies call_gives(#[trigger] (c1 + c2)[i], cfg, (s1 + s2)[i]) by {
        if i < c1.len() {
            assert((c1 + c2)[i] == c1[i] && (s1 + s2)[i] == s1[i]);
        } else {
            assert((c1 + c2)[i] == c2[i - c1.len()] && (s1 + s2)[i] == s2[i - c1.len()]);
        }
    }
    assert(plan_with(c1 + c2, cfg, v1 + v2, s1 + s2));
}

/// One more call and the entries it gave.
pub proof fn lemma_plan_step(calls: Seq<ElimCall>, cfg: CapitalCfg, v: Seq<ElimEntry>, segs: Seq<Seq<ElimEntry>>, c: ElimCall, seg: Seq<ElimEntry>)
    requires
        plan_with(calls, cfg, v, segs),
        call_gives(c, cfg, seg),
    ensures
        plan_with(calls.push(c), cfg, v + seg, segs.push(seg)),
{
    assert(segs.push(seg).drop_last() =~= segs);
    assert forall|i: int| 0 <= i < calls.push(c).len() implies call_gives(#[trigger] calls.push(c)[i], cfg, segs.push(seg)[i]) by {
        if i < calls.len() {
            assert(calls.push(c)[i] == calls[i]);
        }
    }
}

pub proof fn lemma_plan_empty(cfg: CapitalCfg)
    ensures
        plan_with(Seq::<ElimCall>::empty(), cfg, Seq::<ElimEntry>::empty(), Seq::<Seq<ElimEntry>>::empty()),
{
}

// ----------------------------------------------------------------------------
// The calls of a node
// ----------------------------------------------------------------------------
/// The consolidated amounts a subordinate gave (none yet: empty).
pub open spec fn child_bal(earlier: Seq<NodeResult>, k: Seq<char>) -> Entries {
    or_empty(latest_result(earlier, k))
}

/// The parent's investment in a subordinate (none given: zero).
pub open spec fn investment_of(inp: ConsolInput, k: Seq<char>) -> Dec {
    match first_dec(inp.investment@, k) {
        Some(v) => v,
        None => Dec::zero_val(),
    }
}

/// The rule code of a capital elimination (common control: its own rule, else the
/// capital rule's, else `R_CC`; otherwise the capital rule's, else `R_CAPITAL`).
pub open spec fn capital_rule(inp: ConsolInput, common: bool) -> Seq<char> {
    if common {
        match rule_of(inp.rules@, "capital_common_control"@) {
            Some(r) => r.rule_code@,
            None => code_or_spec(rule_of(inp.rules@, "capital"@), "R_CC"@),
        }
    } else {
        code_or_spec(rule_of(inp.rules@, "capital"@), "R_CAPITAL"@)
    }
}

/// The calls for one fully or proportionally consolidated subordinate: its capital
/// elimination where the parent's investment in it is not zero, then its minority
/// share of profit.
pub open spec fn subsidiary_calls(inp: ConsolInput, earlier: Seq<NodeResult>, k: Seq<char>, kn: ScopeNode) -> Seq<ElimCall> {
    let bal = child_bal(earlier, k);
    let inv = investment_of(inp, k);
    let common = has_code(inp.common_control@, k);
    let cap = if inv.val() != 0 {
        seq![
            ElimCall::Capital {
                equity: equity_entries(bal, inp.account_types@, inp.cta_account@),
                investment: inv,
                ownership: kn.ownership,
                rule: capital_rule(inp, common),
                common,
            },
        ]
    } else {
        Seq::empty()
    };
    cap.push(
        ElimCall::Minority {
            net_profit: pl_total(bal, inp.account_types@)->0.neg_val(),
            ownership: kn.ownership,
            rule: code_or_spec(rule_of(inp.rules@, "nci"@), "R_NCI"@),
        },
    )
}

/// The calls for one direct subordinate.
pub open spec fn kid_step(inp: ConsolInput, earlier: Seq<NodeResult>, k: Seq<char>) -> Seq<ElimCall> {
    match last_node(inp.nodes@, k) {
        Some(kn) => if kn.method == ConsolMethod::Full || kn.method == ConsolMethod::Proportional {
            subsidiary_calls(inp, earlier, k, kn)
        } else {
            Seq::empty()
        },
        None => Seq::empty(),
    }
}

/// The capital and minority calls of the direct subordinates, in order.
pub open spec fn kid_calls(inp: ConsolInput, earlier: Seq<NodeResult>, kids: Seq<Seq<char>>) -> Seq<ElimCall>
    decreases kids.len(),
{
    if kids.len() == 0 {
        Seq::empty()
    } else {
        kid_calls(inp, earlier, kids.drop_last()) + kid_step(inp, earlier, kids.last())
    }
}

/// The amounts of entries added up in order (None on overflow).
pub open spec fn entries_total(e: Entries) -> Option<Dec>
    decreases e.len(),
{
    if e.len() == 0 {
        Some(Dec::zero_val())
    } else {
        match entries_total(e.drop_last()) {
            Some(acc) => dec_add_result(acc, e.last().1),
            None => None,
        }
    }
}

proof fn lemma_entries_total(s: Seq<(String, Dec)>)
    ensures
        fold_amounts(s) == entries_total(entries_view(s)),
    decreases s.len(),
{
    if s.len() > 0 {
        assert(entries_view(s).drop_last() =~= entries_view(s.drop_last()));
        lemma_entries_total(s.drop_last());
    }
}

/// A subsidiary's capital elimination can be computed: its equity adds up, and the
/// minority share `(1 − ownership) × book`, the parent's share `ownership × book`
/// and the investment's excess over that share all fit.
pub open spec fn capital_fits(equity: Entries, investment: Dec, ownership: Dec) -> bool {
    match entries_total(equity) {
        Some(sum) => match dec_sub_result(Dec::one_val(), ownership) {
            Some(q) => dec_mul_result(q, sum.neg_val()) is Some && match dec_mul_result(ownership, sum.neg_val()) {
                Some(pe) => dec_sub_result(investment, pe) is Some,
                None => false,
            },
            None => false,
        },
        None => false,
    }
}

/// The capital elimination of a subsidiary (None when its amounts overflow).
fn capital_step(inp: &ConsolInput, bal: &AmountMap, kc: &str, inv: Dec, ownership: Dec) -> (r: Option<ElimEntry>)
    ensures
        r is Some <==> capital_fits(equity_entries(bal@, inp.account_types@, inp.cta_account@), inv, ownership),
        r matches Some(e) ==> call_gives(
            ElimCall::Capital {
                equity: equity_entries(bal@, inp.account_types@, inp.cta_account@),
                investment: inv,
                ownership,
                rule: capital_rule(*inp, has_code(inp.common_control@, kc@)),
                common: has_code(inp.common_control@, kc@),
            },
            inp.cfg,
            seq![e],
        ),
{
    let sub_equity = equity_lines(bal, &inp.account_types, inp.cta_account.as_str());
    proof {
        lemma_entries_total(sub_equity@);
    }
    if !capital_ok(&sub_equity, inv, ownership) {
        return None;
    }
    let common = crate::consol::run::contains_code(&inp.common_control, kc);
    if common {
        let rc = match rule_for(&inp.rules, "capital_common_control") {
            Some(r) => copy_str(r.rule_code.as_str()),
            None => code_or(rule_for(&inp.rules, "capital"), "R_CC"),
        };
        assert(rc@ == capital_rule(*inp, common));
        let e = common_control_elimination(sub_equity.as_slice(), inv, ownership, &inp.cfg, rc.as_str());
        proof {
            assert(capital_entry_is(e, sub_equity@, inv, ownership, rc@, common, inp.cfg));
        }
        Some(e)
    } else {
        let rc = code_or(rule_for(&inp.rules, "capital"), "R_CAPITAL");
        assert(rc@ == capital_rule(*inp, common));
        let e = capital_elimination(sub_equity.as_slice(), inv, ownership, &inp.cfg, rc.as_str());
        proof {
            assert(capital_entry_is(e, sub_equity@, inv, ownership, rc@, common, inp.cfg));
        }
        Some(e)
    }
}

/// The minority share of a subsidiary's profit (Err when it overflows).
fn minority_step(inp: &ConsolInput, bal: &AmountMap, ownership: Dec) -> (r: Result<Option<ElimEntry>, ()>)
    ensures
        r is Ok <==> (pl_total(bal@, inp.account_types@) matches Some(pl) && minority_amount(pl.neg_val(), ownership)
            is Some),
        r matches Ok(me) ==> pl_total(bal@, inp.account_types@) is Some && call_gives(
            ElimCall::Minority {
                net_profit: pl_total(bal@, inp.account_types@)->0.neg_val(),
                ownership,
                rule: code_or_spec(rule_of(inp.rules@, "nci"@), "R_NCI"@),
            },
            inp.cfg,
            match me {
                Some(e) => seq![e],
                None => Seq::<ElimEntry>::empty(),
            },
        ),
{
    let pl = match pl_sum(bal, &inp.account_types) {
        Some(v) => v,
        None => {
            return Err(());
        },
    };
    let net_profit = pl.neg();
    let rc2 = code_or(rule_for(&inp.rules, "nci"), "R_NCI");
    let q = match dec_checked_sub(Dec::one(), ownership) {
        Some(q) => q,
        None => {
            return Err(());
        },
    };
    if dec_checked_mul(q, net_profit).is_none() {
        return Err(());
    }
    Ok(minority_pl(net_profit, ownership, &inp.cfg, rc2.as_str()))
}

/// A direct subordinate's capital elimination and minority share can be computed:
/// for one consolidated fully or proportionally, its capital amounts fit where the
/// parent's investment in it is not zero, its profit adds up and its minority share
/// fits.
pub open spec fn kid_ok(inp: ConsolInput, earlier: Seq<NodeResult>, k: Seq<char>) -> bool {
    match last_node(inp.nodes@, k) {
        Some(kn) => (kn.method == ConsolMethod::Full || kn.method == ConsolMethod::Proportional) ==> {
            let bal = child_bal(earlier, k);
            &&& investment_of(inp, k).val() != 0 ==> capital_fits(
                equity_entries(bal, inp.account_types@, inp.cta_account@),
                investment_of(inp, k),
                kn.ownership,
            )
            &&& pl_total(bal, inp.account_types@) matches Some(pl) && minority_amount(pl.neg_val(), kn.ownership) is Some
        },
        None => true,
    }
}

/// The capital eliminations and minority shares of a node's direct subordinates.
pub(crate) fn kid_part(inp: &ConsolInput, earlier: &Vec<NodeResult>, kid_codes: &Vec<String>, nd: &ScopeNode) -> (r: Result<Vec<ElimEntry>, ConsolError>)
    ensures
        match r {
            Ok(v) => plan_gives(kid_calls(*inp, earlier@, views(kid_codes@)), inp.cfg, v@),
            Err(e) => e matches ConsolError::Overflow { node } && node@ == nd.code@,
        },
        r is Ok <==> forall|j: int| 0 <= j < kid_codes@.len() ==> #[trigger] kid_ok(*inp, earlier@, views(kid_codes@)[j]),
{
    let ghost kv = views(kid_codes@);
    let cfg = &inp.cfg;
    let types = &inp.account_types;
    let mut out: Vec<ElimEntry> = Vec::new();
    let ghost mut segs: Seq<Seq<ElimEntry>> = Seq::empty();
    let mut i: usize = 0;
    proof {
        assert(kv.subrange(0, 0) =~= Seq::<Seq<char>>::empty());
        lemma_plan_empty(inp.cfg);
    }
    while i < kid_codes.len()
        invariant
            i <= kid_codes@.len(),
            kv == views(kid_codes@),
            plan_with(kid_calls(*inp, earlier@, kv.subrange(0, i as int)), inp.cfg, out@, segs),
            forall|j: int| 0 <= j < i ==> #[trigger] kid_ok(*inp, earlier@, kv[j]),
        decreases kid_codes@.len() - i,
    {
        let ghost calls0 = kid_calls(*inp, earlier@, kv.subrange(0, i as int));
        let ghost k = kv[i as int];
        proof {
            assert(kv.subrange(0, i + 1).drop_last() =~= kv.subrange(0, i as int));
            assert(kv.subrange(0, i + 1).last() == k);
            assert(kid_calls(*inp, earlier@, kv.subrange(0, i + 1)) == calls0 + kid_step(*inp, earlier@, k));
        }
        let kc = kid_codes[i].as_str();
        assert(kc@ == k);
        if let Some(kn) = find_node(&inp.nodes, kc) {
            if matches!(kn.method, ConsolMethod::Full | ConsolMethod::Proportional) {
                let bal = match find_result(earlier, kc) {
                    Some(m) => m.copy(),
                    None => AmountMap::new(),
                };
                let inv = match find_dec(&inp.investment, kc) {
                    Some(v) => v,
                    None => Dec::zero(),
                };
                assert(bal@ == child_bal(earlier@, k));
                assert(inv == investment_of(*inp, k));
                let ghost calls1 = calls0;
                if !inv.is_zero() {
                    let e = match capital_step(inp, &bal, kc, inv, kn.ownership) {
                        Some(e) => e,
                        None => {
                            proof { assert(!kid_ok(*inp, earlier@, kv[i as int])); }
                            return Err(overflow(nd));
                        },
                    };
                    let ghost c = ElimCall::Capital {
                        equity: equity_entries(bal@, inp.account_types@, inp.cta_account@),
                        investment: inv,
                        ownership: kn.ownership,
                        rule: capital_rule(*inp, has_code(inp.common_control@, k)),
                        common: has_code(inp.common_control@, k),
                    };
                    proof {
                        lemma_plan_step(calls0, inp.cfg, out@, segs, c, seq![e]);
                        segs = segs.push(seq![e]);
                        calls1 = calls0.push(c);
                    }
                    let ghost before = out@;
                    out.push(e);
                    proof {
                        assert(out@ == before + seq![e]);
                    }
                }
                let me = match minority_step(inp, &bal, kn.ownership) {
                    Ok(x) => x,
                    Err(_) => {
                        proof { assert(!kid_ok(*inp, earlier@, kv[i as int])); }
                        return Err(overflow(nd));
                    },
                };
                let ghost c2 = ElimCall::Minority {
                    net_profit: pl_total(bal@, inp.account_types@)->0.neg_val(),
                    ownership: kn.ownership,
                    rule: code_or_spec(rule_of(inp.rules@, "nci"@), "R_NCI"@),
                };
                let ghost seg = if me is Some {
                    seq![me->0]
                } else {
                    Seq::<ElimEntry>::empty()
                };
                proof {
                    lemma_plan_step(calls1, inp.cfg, out@, segs, c2, seg);
                    segs = segs.push(seg);
                }
                let ghost before = out@;
                match me {
                    Some(e) => {
                        out.push(e);
                        proof {
                            assert(out@ == before + seg);
                        }
                    },
                    None => {
                        proof {
                            assert(out@ == before + seg);
                        }
                    },
                }
                proof {
                    assert(kid_step(*inp, earlier@, k) == subsidiary_calls(*inp, earlier@, k, *kn));
                    assert(calls1.push(c2) =~= calls0 + subsidiary_calls(*inp, earlier@, k, *kn));
                }
            } else {
                proof {
                    assert(calls0 + kid_step(*inp, earlier@, k) =~= calls0);
                }
            }
        } else {
            proof {
                assert(calls0 + kid_step(*inp, earlier@, k) =~= calls0);
            }
        }
        i = i + 1;
    }
    proof {
        assert(kv.subrange(0, kv.len() as int) =~= kv);
    }
    Ok(out)
}

// ----------------------------------------------------------------------------
// Where intercompany items are eliminated
// ----------------------------------------------------------------------------
/// Whether a code names a node.
pub open spec fn is_node_code(nodes: Seq<ScopeNode>, c: Seq<char>) -> bool {
    exists|i: int| 0 <= i < nodes.len() && (#[trigger] nodes[i]).code@ == c
}

/// Whether an entity lies in the subtree of the node with a code.
pub open spec fn member_of(nodes: Seq<ScopeNode>, c: Seq<char>, x: Seq<char>) -> bool {
    is_node_code(nodes, c) && subtree_of(nodes, c).contains(x)
}

/// Two entities first meet at a node: both in its subtree, not both in the subtree
/// of one of its direct subordinates (there they would be eliminated lower down).
pub open spec fn meets_at(nodes: Seq<ScopeNode>, code: Seq<char>, kids: Seq<Seq<char>>, a: Seq<char>, b: Seq<char>) -> bool {
    &&& member_of(nodes, code, a)
    &&& member_of(nodes, code, b)
    &&& !exists|j: int| 0 <= j < kids.len() && member_of(nodes, #[trigger] kids[j], a) && member_of(nodes, kids[j], b)
}

/// The subtrees of the nodes, node by node, as computed.
pub open spec fn subtrees_ok(nodes: Seq<ScopeNode>, st: Seq<(String, Vec<String>)>) -> bool {
    &&& st.len() == nodes.len()
    &&& forall|i: int|
        0 <= i < st.len() ==> (#[trigger] st[i]).0@ == nodes[i].code@ && forall|c: Seq<char>|
            #[trigger] has_code(st[i].1@, c) <==> subtree_of(nodes, nodes[i].code@).contains(c)
}

proof fn lemma_lookup_from(nodes: Seq<ScopeNode>, st: Seq<(String, Vec<String>)>, c: Seq<char>, x: Seq<char>, k: int)
    requires
        subtrees_ok(nodes, st),
        0 <= k <= st.len(),
    ensures
        match subtree_lookup(st.subrange(k, st.len() as int), c) {
            Some(m) => (has_code(m, x) <==> subtree_of(nodes, c).contains(x)) && exists|i: int| k <= i < nodes.len() && (#[trigger] nodes[i]).code@ == c,
            None => forall|i: int| k <= i < nodes.len() ==> (#[trigger] nodes[i]).code@ != c,
        },
    decreases st.len() - k,
{
    let rest = st.subrange(k, st.len() as int);
    if k < st.len() {
        assert(rest[0] == st[k]);
        assert(rest.subrange(1, rest.len() as int) =~= st.subrange(k + 1, st.len() as int));
        lemma_lookup_from(nodes, st, c, x, k + 1);
        if st[k].0@ == c {
            assert(nodes[k].code@ == c);
        }
    }
}

/// The members the computed subtrees give for a code are its subtree's, and none
/// where no node has the code.
pub proof fn lemma_lookup_members(nodes: Seq<ScopeNode>, st: Seq<(String, Vec<String>)>, c: Seq<char>, x: Seq<char>)
    requires
        subtrees_ok(nodes, st),
    ensures
        (match subtree_lookup(st, c) {
            Some(m) => has_code(m, x),
            None => false,
        }) <==> member_of(nodes, c, x),
{
    lemma_lookup_from(nodes, st, c, x, 0);
    assert(st.subrange(0, st.len() as int) =~= st);
}

/// The test a node makes on an intercompany item is `meets_at`.
proof fn lemma_meets(nodes: Seq<ScopeNode>, st: Seq<(String, Vec<String>)>, code: Seq<char>, members: Seq<String>, kids: Seq<String>, a: Seq<char>, b: Seq<char>)
    requires
        subtrees_ok(nodes, st),
        members == (match subtree_lookup(st, code) {
            Some(m) => m,
            None => Seq::<String>::empty(),
        }),
    ensures
        (has_code(members, a) && has_code(members, b) && !same_child_spec(kids, st, a, b)) == meets_at(nodes, code, views(kids), a, b),
{
    lemma_lookup_members(nodes, st, code, a);
    lemma_lookup_members(nodes, st, code, b);
    if subtree_lookup(st, code) is None {
        assert(!has_code(members, a)) by {
            if has_code(members, a) {
                let i = choose|i: int| 0 <= i < members.len() && (#[trigger] members[i])@ == a;
            }
        }
    }
    let kv = views(kids);
    if same_child_spec(kids, st, a, b) {
        let j = choose|j: int| 0 <= j < kids.len() && holds_both(subtree_lookup(st, (#[trigger] kids[j])@), a, b);
        lemma_lookup_members(nodes, st, kids[j]@, a);
        lemma_lookup_members(nodes, st, kids[j]@, b);
        assert(kv[j] == kids[j]@);
        assert(member_of(nodes, kv[j], a) && member_of(nodes, kv[j], b));
    }
    if exists|j: int| 0 <= j < kv.len() && member_of(nodes, #[trigger] kv[j], a) && member_of(nodes, kv[j], b) {
        let j = choose|j: int| 0 <= j < kv.len() && member_of(nodes, #[trigger] kv[j], a) && member_of(nodes, kv[j], b);
        lemma_lookup_members(nodes, st, kv[j], a);
        lemma_lookup_members(nodes, st, kv[j], b);
        assert(kv[j] == kids[j]@);
        assert(holds_both(subtree_lookup(st, kids[j]@), a, b));
    }
}

/// The accounts and code of a dividend elimination (defaults without a rule).
pub open spec fn dividend_rule(inp: ConsolInput) -> (Seq<char>, Seq<char>, Seq<char>) {
    match rule_of(inp.rules@, "dividend"@) {
        Some(r) => (r.dr_account@, r.cr_account@, r.rule_code@),
        None => ("6111"@, "4104"@, "R_DIV"@),
    }
}

/// The call for one intercompany item of a kind, where it first meets at this node.
pub open spec fn ic_step(inp: ConsolInput, code: Seq<char>, kids: Seq<Seq<char>>, t: Seq<char>, m: IcMatch) -> Seq<ElimCall> {
    if !meets_at(inp.nodes@, code, kids, m.entity_a@, m.entity_b@) {
        Seq::empty()
    } else if t == "debt"@ {
        match rule_of(inp.rules@, "debt"@) {
            Some(r) => seq![ElimCall::Debt { m, dr: r.dr_account@, cr: r.cr_account@, rule: r.rule_code@ }],
            None => Seq::empty(),
        }
    } else if t == "sales"@ {
        match rule_of(inp.rules@, "sales"@) {
            Some(r) => seq![ElimCall::Sales { m, dr: r.dr_account@, cr: r.cr_account@, rule: r.rule_code@ }],
            None => Seq::empty(),
        }
    } else if t == "dividend"@ {
        seq![ElimCall::Dividend { m, income: dividend_rule(inp).0, retained: dividend_rule(inp).1, rule: dividend_rule(inp).2 }]
    } else {
        Seq::empty()
    }
}

/// The calls for the intercompany items, in order.
pub open spec fn ic_calls(inp: ConsolInput, code: Seq<char>, kids: Seq<Seq<char>>, items: Seq<(String, IcMatch)>) -> Seq<ElimCall>
    decreases items.len(),
{
    if items.len() == 0 {
        Seq::empty()
    } else {
        ic_calls(inp, code, kids, items.drop_last()) + ic_step(inp, code, kids, items.last().0@, items.last().1)
    }
}

/// The members of a node's subtree, as computed.
pub(crate) fn members_of(subtrees: &Vec<(String, Vec<String>)>, code: &str) -> (r: Vec<String>)
    ensures
        r@ == (match subtree_lookup(subtrees@, code@) {
            Some(m) => m,
            None => Seq::<String>::empty(),
        }),
{
    match find_members(subtrees, code) {
        Some(m) => {
            let mut out: Vec<String> = Vec::new();
            let mut i: usize = 0;
            while i < m.len()
                invariant
                    i <= m@.len(),
                    out@ == m@.subrange(0, i as int),
                decreases m@.len() - i,
            {
                out.push(m[i].clone());
                i = i + 1;
                assert(out@ =~= m@.subrange(0, i as int));
            }
            assert(m@.subrange(0, m@.len() as int) =~= m@);
            out
        },
        None => Vec::new(),
    }
}

/// The intercompany eliminations of a node.
pub(crate) fn ic_part(inp: &ConsolInput, subtrees: &Vec<(String, Vec<String>)>, kid_codes: &Vec<String>, code: &str) -> (r: Vec<ElimEntry>)
    requires
        subtrees_ok(inp.nodes@, subtrees@),
    ensures
        plan_gives(ic_calls(*inp, code@, views(kid_codes@), inp.ic@), inp.cfg, r@),
{
    let ghost kv = views(kid_codes@);
    let members = members_of(subtrees, code);
    let mut out: Vec<ElimEntry> = Vec::new();
    let ghost mut segs: Seq<Seq<ElimEntry>> = Seq::empty();
    let mut i: usize = 0;
    proof {
        assert(inp.ic@.subrange(0, 0) =~= Seq::<(String, IcMatch)>::empty());
        lemma_plan_empty(inp.cfg);
    }
    while i < inp.ic.len()
        invariant
            i <= inp.ic@.len(),
            kv == views(kid_codes@),
            subtrees_ok(inp.nodes@, subtrees@),
            members@ == (match subtree_lookup(subtrees@, code@) {
                Some(m) => m,
                None => Seq::<String>::empty(),
            }),
            plan_with(ic_calls(*inp, code@, kv, inp.ic@.subrange(0, i as int)), inp.cfg, out@, segs),
        decreases inp.ic@.len() - i,
    {
        let ghost calls0 = ic_calls(*inp, code@, kv, inp.ic@.subrange(0, i as int));
        proof {
            let p = inp.ic@.subrange(0, i + 1);
            assert(p.drop_last() =~= inp.ic@.subrange(0, i as int));
            assert(p.last() == inp.ic@[i as int]);
        }
        let t = inp.ic[i].0.as_str();
        let m = &inp.ic[i].1;
        let a = m.entity_a.as_str();
        let b = m.entity_b.as_str();
        let ghost step = ic_step(*inp, code@, kv, t@, *m);
        let meets = contains_code(&members, a) && contains_code(&members, b) && !same_child_subtree(kid_codes, subtrees, a, b);
        proof {
            lemma_meets(inp.nodes@, subtrees@, code@, members@, kid_codes@, a@, b@);
        }
        if meets {
            let one: Vec<IcMatch> = vec![m.clone()];
            assert(one@ == seq![*m]);
            let mut got = false;
            let mut es: Vec<ElimEntry> = Vec::new();
            let ghost mut c = ElimCall::Goodwill { amount: Dec::zero_val(), goodwill_acc: Seq::empty(), impairment_acc: Seq::empty(), rule: Seq::empty() };
            if str_eq(t, "debt") {
                if let Some(r) = rule_for(&inp.rules, "debt") {
                    es = debt_elimination(one.as_slice(), r.dr_account.as_str(), r.cr_account.as_str(), r.rule_code.as_str());
                    got = true;
                    proof {
                        c = ElimCall::Debt { m: *m, dr: r.dr_account@, cr: r.cr_account@, rule: r.rule_code@ };
                        assert(step == seq![c]);
                    }
                } else {
                    assert(step == Seq::<ElimCall>::empty());
                }
            } else if str_eq(t, "sales") {
                if let Some(r) = rule_for(&inp.rules, "sales") {
                    es = sales_elimination(one.as_slice(), r.dr_account.as_str(), r.cr_account.as_str(), r.rule_code.as_str());
                    got = true;
                    proof {
                        c = ElimCall::Sales { m: *m, dr: r.dr_account@, cr: r.cr_account@, rule: r.rule_code@ };
                        assert(step == seq![c]);
                    }
                } else {
                    assert(step == Seq::<ElimCall>::empty());
                }
            } else if str_eq(t, "dividend") {
                let (inc_acc, re_acc, rc) = match rule_for(&inp.rules, "dividend") {
                    Some(r) => (copy_str(r.dr_account.as_str()), copy_str(r.cr_account.as_str()), copy_str(r.rule_code.as_str())),
                    None => (copy_str("6111"), copy_str("4104"), copy_str("R_DIV")),
                };
                es = dividend_elimination(one.as_slice(), inc_acc.as_str(), re_acc.as_str(), rc.as_str());
                got = true;
                proof {
                    c = ElimCall::Dividend { m: *m, income: inc_acc@, retained: re_acc@, rule: rc@ };
                    assert(step == seq![c]);
                }
            } else {
                assert(step == Seq::<ElimCall>::empty());
            }
            if got {
                proof {
                    assert(call_gives(c, inp.cfg, es@));
                    lemma_plan_step(calls0, inp.cfg, out@, segs, c, es@);
                    segs = segs.push(es@);
                    assert(calls0.push(c) =~= calls0 + step);
                }
                push_all(&mut out, es);
            } else {
                proof {
                    assert(calls0 + step =~= calls0);
                }
            }
        } else {
            proof {
                assert(calls0 + step =~= calls0);
            }
        }
        i = i + 1;
    }
    proof {
        assert(inp.ic@.subrange(0, inp.ic@.len() as int) =~= inp.ic@);
    }
    out
}

// ----------------------------------------------------------------------------
// Unrealised profits
// ----------------------------------------------------------------------------
/// The accounts and codes of the inventory eliminations: the rule's, and the opening
/// carry-forward's (defaults without one).
pub open spec fn inventory_opening(inp: ConsolInput) -> (Seq<char>, Seq<char>) {
    match rule_of(inp.rules@, "inventory_opening"@) {
        Some(r) => (r.dr_account@, r.rule_code@),
        None => ("4104"@, "R_INV_OPEN"@),
    }
}

/// The calls for the unrealised inventory profits whose two parties first meet at
/// this node, in order (none without an inventory rule).
pub open spec fn inventory_calls(inp: ConsolInput, code: Seq<char>, kids: Seq<Seq<char>>, items: Seq<InventoryProfit>) -> Seq<ElimCall>
    decreases items.len(),
{
    if items.len() == 0 {
        Seq::empty()
    } else {
        let prev = inventory_calls(inp, code, kids, items.drop_last());
        let p = items.last();
        match rule_of(inp.rules@, "inventory"@) {
            Some(r) => if meets_at(inp.nodes@, code, kids, p.seller@, p.buyer@) {
                prev.push(
                    ElimCall::Inventory {
                        p,
                        cost: r.dr_account@,
                        inventory: r.cr_account@,
                        opening_re: inventory_opening(inp).0,
                        rule: r.rule_code@,
                        opening_rule: inventory_opening(inp).1,
                    },
                )
            } else {
                prev
            },
            None => prev,
        }
    }
}

/// The accounts and codes of the fixed-asset eliminations (defaults without rules).
pub open spec fn fa_accounts(inp: ConsolInput) -> (Seq<char>, Seq<char>, Seq<char>, Seq<char>, Seq<char>, Seq<char>) {
    let fa = rule_of(inp.rules@, "fixed_asset_profit"@);
    let (dep, exp, dep_rc) = match rule_of(inp.rules@, "fixed_asset_depreciation"@) {
        Some(r) => (r.dr_account@, r.cr_account@, r.rule_code@),
        None => ("1602"@, "6602"@, "R_FA_DEP"@),
    };
    (text_or(rule_dr(fa), "6301"@), text_or(rule_cr(fa), "1601"@), dep, exp, code_or_spec(fa, "R_FA"@), dep_rc)
}

/// The calls for the unrealised fixed-asset profits whose two parties first meet at
/// this node, in order.
pub open spec fn fa_calls(inp: ConsolInput, code: Seq<char>, kids: Seq<Seq<char>>, items: Seq<FixedAssetProfit>) -> Seq<ElimCall>
    decreases items.len(),
{
    if items.len() == 0 {
        Seq::empty()
    } else {
        let prev = fa_calls(inp, code, kids, items.drop_last());
        let p = items.last();
        let a = fa_accounts(inp);
        if meets_at(inp.nodes@, code, kids, p.seller@, p.buyer@) {
            prev.push(ElimCall::FixedAsset { p, gain: a.0, asset: a.1, accum_dep: a.2, expense: a.3, rule: a.4, dep_rule: a.5 })
        } else {
            prev
        }
    }
}

/// The unrealised inventory profit eliminations of a node.
pub(crate) fn inventory_part(inp: &ConsolInput, subtrees: &Vec<(String, Vec<String>)>, kid_codes: &Vec<String>, code: &str) -> (r: Vec<ElimEntry>)
    requires
        subtrees_ok(inp.nodes@, subtrees@),
    ensures
        plan_gives(inventory_calls(*inp, code@, views(kid_codes@), inp.interim@), inp.cfg, r@),
{
    let ghost kv = views(kid_codes@);
    let members = members_of(subtrees, code);
    let mut out: Vec<ElimEntry> = Vec::new();
    let ghost mut segs: Seq<Seq<ElimEntry>> = Seq::empty();
    proof {
        assert(inp.interim@.subrange(0, 0) =~= Seq::<InventoryProfit>::empty());
        lemma_plan_empty(inp.cfg);
    }
    let rule = match rule_for(&inp.rules, "inventory") {
        Some(r) => r,
        None => {
            proof {
                lemma_no_inventory_rule(*inp, code@, kv, inp.interim@);
            }
            return out;
        },
    };
    let (open_re_acc, open_rc) = match rule_for(&inp.rules, "inventory_opening") {
        Some(r) => (copy_str(r.dr_account.as_str()), copy_str(r.rule_code.as_str())),
        None => (copy_str("4104"), copy_str("R_INV_OPEN")),
    };
    let mut i: usize = 0;
    while i < inp.interim.len()
        invariant
            i <= inp.interim@.len(),
            kv == views(kid_codes@),
            subtrees_ok(inp.nodes@, subtrees@),
            members@ == (match subtree_lookup(subtrees@, code@) {
                Some(m) => m,
                None => Seq::<String>::empty(),
            }),
            rule_of(inp.rules@, "inventory"@) == Some(*rule),
            (open_re_acc@, open_rc@) == inventory_opening(*inp),
            plan_with(inventory_calls(*inp, code@, kv, inp.interim@.subrange(0, i as int)), inp.cfg, out@, segs),
        decreases inp.interim@.len() - i,
    {
        let ghost calls0 = inventory_calls(*inp, code@, kv, inp.interim@.subrange(0, i as int));
        proof {
            let q = inp.interim@.subrange(0, i + 1);
            assert(q.drop_last() =~= inp.interim@.subrange(0, i as int));
            assert(q.last() == inp.interim@[i as int]);
        }
        let p = &inp.interim[i];
        let meets = contains_code(&members, p.seller.as_str()) && contains_code(&members, p.buyer.as_str())
            && !same_child_subtree(kid_codes, subtrees, p.seller.as_str(), p.buyer.as_str());
        proof {
            lemma_meets(inp.nodes@, subtrees@, code@, members@, kid_codes@, p.seller@, p.buyer@);
        }
        if meets {
            let es = inventory_profit_elimination(
                p,
                rule.dr_account.as_str(),
                rule.cr_account.as_str(),
                open_re_acc.as_str(),
                rule.rule_code.as_str(),
                open_rc.as_str(),
            );
            let ghost c = ElimCall::Inventory {
                p: *p,
                cost: rule.dr_account@,
                inventory: rule.cr_account@,
                opening_re: open_re_acc@,
                rule: rule.rule_code@,
                opening_rule: open_rc@,
            };
            proof {
                assert(call_gives(c, inp.cfg, es@));
                lemma_plan_step(calls0, inp.cfg, out@, segs, c, es@);
                segs = segs.push(es@);
            }
            push_all(&mut out, es);
        }
        i = i + 1;
    }
    proof {
        assert(inp.interim@.subrange(0, inp.interim@.len() as int) =~= inp.interim@);
    }
    out
}

proof fn lemma_no_inventory_rule(inp: ConsolInput, code: Seq<char>, kids: Seq<Seq<char>>, items: Seq<InventoryProfit>)
    requires
        rule_of(inp.rules@, "inventory"@) is None,
    ensures
        inventory_calls(inp, code, kids, items) == Seq::<ElimCall>::empty(),
    decreases items.len(),
{
    if items.len() > 0 {
        lemma_no_inventory_rule(inp, code, kids, items.drop_last());
    }
}

/// A fixed-asset profit can be eliminated at this node: where its parties first meet
/// here and the depreciation reversal applies, the excess depreciation fits.
pub open spec fn fa_item_ok(inp: ConsolInput, code: Seq<char>, kids: Seq<Seq<char>>, p: FixedAssetProfit) -> bool {
    meets_at(inp.nodes@, code, kids, p.seller@, p.buyer@) && depreciation_applies(p) ==> excess_depreciation(p) is Some
}

/// The unrealised fixed-asset profit eliminations of a node (Err when the excess
/// depreciation overflows).
pub(crate) fn fa_part(inp: &ConsolInput, subtrees: &Vec<(String, Vec<String>)>, kid_codes: &Vec<String>, code: &str) -> (r: Result<Vec<ElimEntry>, ()>)
    requires
        subtrees_ok(inp.nodes@, subtrees@),
    ensures
        r matches Ok(v) ==> plan_gives(fa_calls(*inp, code@, views(kid_codes@), inp.fa_profit@), inp.cfg, v@),
        r is Ok <==> forall|j: int|
            0 <= j < inp.fa_profit@.len() ==> #[trigger] fa_item_ok(*inp, code@, views(kid_codes@), inp.fa_profit@[j]),
{
    let ghost kv = views(kid_codes@);
    let members = members_of(subtrees, code);
    let fa_rule = rule_for(&inp.rules, "fixed_asset_profit");
    let gain = nonempty_or(
        match fa_rule {
            Some(r) => Some(&r.dr_account),
            None => None,
        },
        "6301",
    );
    let asset = nonempty_or(
        match fa_rule {
            Some(r) => Some(&r.cr_account),
            None => None,
        },
        "1601",
    );
    let fa_rc = code_or(fa_rule, "R_FA");
    let (accum_dep, expense, dep_rc) = match rule_for(&inp.rules, "fixed_asset_depreciation") {
        Some(r) => (copy_str(r.dr_account.as_str()), copy_str(r.cr_account.as_str()), copy_str(r.rule_code.as_str())),
        None => (copy_str("1602"), copy_str("6602"), copy_str("R_FA_DEP")),
    };
    assert((gain@, asset@, accum_dep@, expense@, fa_rc@, dep_rc@) == fa_accounts(*inp));
    let mut out: Vec<ElimEntry> = Vec::new();
    let ghost mut segs: Seq<Seq<ElimEntry>> = Seq::empty();
    let mut i: usize = 0;
    proof {
        assert(inp.fa_profit@.subrange(0, 0) =~= Seq::<FixedAssetProfit>::empty());
        lemma_plan_empty(inp.cfg);
    }
    while i < inp.fa_profit.len()
        invariant
            i <= inp.fa_profit@.len(),
            kv == views(kid_codes@),
            subtrees_ok(inp.nodes@, subtrees@),
            members@ == (match subtree_lookup(subtrees@, code@) {
                Some(m) => m,
                None => Seq::<String>::empty(),
            }),
            (gain@, asset@, accum_dep@, expense@, fa_rc@, dep_rc@) == fa_accounts(*inp),
            plan_with(fa_calls(*inp, code@, kv, inp.fa_profit@.subrange(0, i as int)), inp.cfg, out@, segs),
            forall|j: int| 0 <= j < i ==> #[trigger] fa_item_ok(*inp, code@, kv, inp.fa_profit@[j]),
        decreases inp.fa_profit@.len() - i,
    {
        let ghost calls0 = fa_calls(*inp, code@, kv, inp.fa_profit@.subrange(0, i as int));
        proof {
            let q = inp.fa_profit@.subrange(0, i + 1);
            assert(q.drop_last() =~= inp.fa_profit@.subrange(0, i as int));
            assert(q.last() == inp.fa_profit@[i as int]);
        }
        let p = &inp.fa_profit[i];
        let meets = contains_code(&members, p.seller.as_str()) && contains_code(&members, p.buyer.as_str())
            && !same_child_subtree(kid_codes, subtrees, p.seller.as_str(), p.buyer.as_str());
        proof {
            lemma_meets(inp.nodes@, subtrees@, code@, members@, kid_codes@, p.seller@, p.buyer@);
        }
        if meets {
            let applies = crate::decimal::dec_lt(Dec::zero(), p.dep_years) && crate::decimal::dec_lt(Dec::zero(), p.elapsed_years)
                && !p.unrealized.is_zero();
            if applies {
                let t = match dec_checked_mul(p.unrealized, p.elapsed_years) {
                    Some(t) => t,
                    None => {
                        proof { assert(!fa_item_ok(*inp, code@, kv, inp.fa_profit@[i as int])); }
                        return Err(());
                    },
                };
                if crate::decimal::dec_checked_div(t, p.dep_years).is_none() {
                    proof { assert(!fa_item_ok(*inp, code@, kv, inp.fa_profit@[i as int])); }
                    return Err(());
                }
            }
            let es = fixed_asset_profit_elimination(
                p,
                gain.as_str(),
                asset.as_str(),
                accum_dep.as_str(),
                expense.as_str(),
                fa_rc.as_str(),
                dep_rc.as_str(),
            );
            let ghost c = ElimCall::FixedAsset {
                p: *p,
                gain: gain@,
                asset: asset@,
                accum_dep: accum_dep@,
                expense: expense@,
                rule: fa_rc@,
                dep_rule: dep_rc@,
            };
            proof {
                assert(call_gives(c, inp.cfg, es@));
                lemma_plan_step(calls0, inp.cfg, out@, segs, c, es@);
                segs = segs.push(es@);
            }
            push_all(&mut out, es);
        }
        i = i + 1;
    }
    proof {
        assert(inp.fa_profit@.subrange(0, inp.fa_profit@.len() as int) =~= inp.fa_profit@);
    }
    Ok(out)
}

// ----------------------------------------------------------------------------
// Adjustments
// ----------------------------------------------------------------------------
/// The accounts and code of the equity-method pick-up (defaults without a rule).
pub open spec fn pickup_rule(inp: ConsolInput) -> (Seq<char>, Seq<char>, Seq<char>) {
    match rule_of(inp.rules@, "equity_method"@) {
        Some(r) => (r.dr_account@, r.cr_account@, r.rule_code@),
        None => (inp.cfg.investment_account@, "6111"@, "R_EQUITY"@),
    }
}

/// The pick-up call for one direct subordinate carried at equity.
pub open spec fn pickup_step(inp: ConsolInput, earlier: Seq<NodeResult>, k: Seq<char>) -> Seq<ElimCall> {
    match last_node(inp.nodes@, k) {
        Some(kn) => if kn.method == ConsolMethod::Equity {
            seq![
                ElimCall::Pickup {
                    net_profit: pl_total(child_bal(earlier, k), inp.account_types@)->0.neg_val(),
                    ownership: kn.ownership,
                    investment_acc: pickup_rule(inp).0,
                    income_acc: pickup_rule(inp).1,
                    rule: pickup_rule(inp).2,
                },
            ]
        } else {
            Seq::empty()
        },
        None => Seq::empty(),
    }
}

/// The pick-up calls of the direct subordinates carried at equity, in order.
pub open spec fn pickup_calls(inp: ConsolInput, earlier: Seq<NodeResult>, kids: Seq<Seq<char>>) -> Seq<ElimCall>
    decreases kids.len(),
{
    if kids.len() == 0 {
        Seq::empty()
    } else {
        pickup_calls(inp, earlier, kids.drop_last()) + pickup_step(inp, earlier, kids.last())
    }
}

/// The goodwill impairment call of a node, where one is recorded for it.
pub open spec fn goodwill_calls(inp: ConsolInput, code: Seq<char>) -> Seq<ElimCall> {
    match first_dec(inp.goodwill_impair@, code) {
        Some(amount) => {
            let (imp, rc) = match rule_of(inp.rules@, "goodwill_impair"@) {
                Some(r) => (r.dr_account@, r.rule_code@),
                None => ("6701"@, "R_GOODWILL"@),
            };
            seq![ElimCall::Goodwill { amount, goodwill_acc: inp.cfg.goodwill_account@, impairment_acc: imp, rule: rc }]
        },
        None => Seq::empty(),
    }
}

/// The call for one staged acquisition or disposal recorded at this node.
pub open spec fn step_step(inp: ConsolInput, code: Seq<char>, t: StepTxn) -> Seq<ElimCall> {
    let sa = rule_of(inp.rules@, "step_acquisition"@);
    let gain = text_or(rule_dr(sa), "6111"@);
    if t.node@ != code {
        Seq::empty()
    } else if t.txn_type@ == "step_acq"@ {
        seq![
            ElimCall::StepAcq {
                prev_carrying: t.prev_carrying,
                prev_fair_value: t.prev_fair_value,
                investment_acc: inp.cfg.investment_account@,
                gain_acc: gain,
                rule: code_or_spec(sa, "R_STEP"@),
            },
        ]
    } else if t.txn_type@ == "disposal"@ {
        seq![
            ElimCall::Disposal {
                loses_control: t.loses_control,
                proceeds: t.proceeds,
                disposed_share: t.disposed_share,
                retained_fair_value: t.retained_fair_value,
                net_assets_share: t.net_assets_share,
                nci_acc: inp.cfg.nci_account@,
                reserve_acc: inp.cfg.capital_reserve_account@,
                gain_acc: gain,
                rule: code_or_spec(rule_of(inp.rules@, "disposal"@), "R_DISP"@),
            },
        ]
    } else {
        Seq::empty()
    }
}

/// The calls for the staged acquisitions and disposals at this node, in order.
pub open spec fn step_calls(inp: ConsolInput, code: Seq<char>, items: Seq<StepTxn>) -> Seq<ElimCall>
    decreases items.len(),
{
    if items.len() == 0 {
        Seq::empty()
    } else {
        step_calls(inp, code, items.drop_last()) + step_step(inp, code, items.last())
    }
}

/// A direct subordinate's pick-up can be computed: for one carried at equity, its
/// profit adds up and the parent's share of it fits.
pub open spec fn pickup_ok(inp: ConsolInput, earlier: Seq<NodeResult>, k: Seq<char>) -> bool {
    match last_node(inp.nodes@, k) {
        Some(kn) => kn.method == ConsolMethod::Equity ==> (pl_total(child_bal(earlier, k), inp.account_types@) matches Some(
            pl,
        ) && dec_mul_result(kn.ownership, pl.neg_val()) is Some),
        None => true,
    }
}

/// The equity-method pick-ups of a node's direct subordinates (Err on overflow).
pub(crate) fn pickup_part(inp: &ConsolInput, earlier: &Vec<NodeResult>, kid_codes: &Vec<String>) -> (r: Result<Vec<ElimEntry>, ()>)
    ensures
        r matches Ok(v) ==> plan_gives(pickup_calls(*inp, earlier@, views(kid_codes@)), inp.cfg, v@),
        r is Ok <==> forall|j: int| 0 <= j < kid_codes@.len() ==> #[trigger] pickup_ok(*inp, earlier@, views(kid_codes@)[j]),
{
    let ghost kv = views(kid_codes@);
    let (inv_acc, inc_acc, em_rc) = match rule_for(&inp.rules, "equity_method") {
        Some(r) => (copy_str(r.dr_account.as_str()), copy_str(r.cr_account.as_str()), copy_str(r.rule_code.as_str())),
        None => (copy_str(inp.cfg.investment_account.as_str()), copy_str("6111"), copy_str("R_EQUITY")),
    };
    let mut out: Vec<ElimEntry> = Vec::new();
    let ghost mut segs: Seq<Seq<ElimEntry>> = Seq::empty();
    let mut i: usize = 0;
    proof {
        assert(kv.subrange(0, 0) =~= Seq::<Seq<char>>::empty());
        lemma_plan_empty(inp.cfg);
    }
    while i < kid_codes.len()
        invariant
            i <= kid_codes@.len(),
            kv == views(kid_codes@),
            (inv_acc@, inc_acc@, em_rc@) == pickup_rule(*inp),
            plan_with(pickup_calls(*inp, earlier@, kv.subrange(0, i as int)), inp.cfg, out@, segs),
            forall|j: int| 0 <= j < i ==> #[trigger] pickup_ok(*inp, earlier@, kv[j]),
        decreases kid_codes@.len() - i,
    {
        let ghost calls0 = pickup_calls(*inp, earlier@, kv.subrange(0, i as int));
        let ghost k = kv[i as int];
        proof {
            assert(kv.subrange(0, i + 1).drop_last() =~= kv.subrange(0, i as int));
            assert(kv.subrange(0, i + 1).last() == k);
        }
        let kc = kid_codes[i].as_str();
        assert(kc@ == k);
        let mut handled = false;
        if let Some(kn) = find_node(&inp.nodes, kc) {
            if matches!(kn.method, ConsolMethod::Equity) {
                let bal = match find_result(earlier, kc) {
                    Some(m) => m.copy(),
                    None => AmountMap::new(),
                };
                assert(bal@ == child_bal(earlier@, k));
                let pl = match pl_sum(&bal, &inp.account_types) {
                    Some(v) => v,
                    None => {
                        proof { assert(!pickup_ok(*inp, earlier@, kv[i as int])); }
                        return Err(());
                    },
                };
                let net_profit = pl.neg();
                if dec_checked_mul(kn.ownership, net_profit).is_none() {
                    proof { assert(!pickup_ok(*inp, earlier@, kv[i as int])); }
                    return Err(());
                }
                let me = equity_pickup(net_profit, kn.ownership, inv_acc.as_str(), inc_acc.as_str(), em_rc.as_str());
                let ghost c = ElimCall::Pickup {
                    net_profit,
                    ownership: kn.ownership,
                    investment_acc: inv_acc@,
                    income_acc: inc_acc@,
                    rule: em_rc@,
                };
                let ghost seg = if me is Some {
                    seq![me->0]
                } else {
                    Seq::<ElimEntry>::empty()
                };
                proof {
                    assert(call_gives(c, inp.cfg, seg));
                    lemma_plan_step(calls0, inp.cfg, out@, segs, c, seg);
                    segs = segs.push(seg);
                    assert(pickup_step(*inp, earlier@, k) == seq![c]);
                    assert(calls0.push(c) =~= calls0 + pickup_step(*inp, earlier@, k));
                }
                let ghost before = out@;
                match me {
                    Some(e) => {
                        out.push(e);
                    },
                    None => {},
                }
                proof {
                    assert(out@ =~= before + seg);
                }
                handled = true;
            }
        }
        if !handled {
            proof {
                assert(pickup_step(*inp, earlier@, k) == Seq::<ElimCall>::empty());
                assert(calls0 + pickup_step(*inp, earlier@, k) =~= calls0);
            }
        }
        i = i + 1;
    }
    proof {
        assert(kv.subrange(0, kv.len() as int) =~= kv);
    }
    Ok(out)
}

/// The goodwill impairment of a node.
pub(crate) fn goodwill_part(inp: &ConsolInput, code: &str) -> (r: Vec<ElimEntry>)
    ensures
        plan_gives(goodwill_calls(*inp, code@), inp.cfg, r@),
{
    let mut out: Vec<ElimEntry> = Vec::new();
    proof {
        lemma_plan_empty(inp.cfg);
    }
    if let Some(amt) = find_dec(&inp.goodwill_impair, code) {
        let (imp_acc, gw_rc) = match rule_for(&inp.rules, "goodwill_impair") {
            Some(r) => (copy_str(r.dr_account.as_str()), copy_str(r.rule_code.as_str())),
            None => (copy_str("6701"), copy_str("R_GOODWILL")),
        };
        let me = goodwill_impairment(amt, inp.cfg.goodwill_account.as_str(), imp_acc.as_str(), gw_rc.as_str());
        let ghost c = ElimCall::Goodwill { amount: amt, goodwill_acc: inp.cfg.goodwill_account@, impairment_acc: imp_acc@, rule: gw_rc@ };
        let ghost seg = if me is Some {
            seq![me->0]
        } else {
            Seq::<ElimEntry>::empty()
        };
        proof {
            assert(call_gives(c, inp.cfg, seg));
            lemma_plan_step(Seq::empty(), inp.cfg, out@, Seq::empty(), c, seg);
            assert(Seq::<ElimCall>::empty().push(c) =~= goodwill_calls(*inp, code@));
        }
        match me {
            Some(e) => {
                out.push(e);
            },
            None => {},
        }
        proof {
            assert(out@ =~= Seq::<ElimEntry>::empty() + seg);
            assert(plan_with(goodwill_calls(*inp, code@), inp.cfg, out@, Seq::<Seq<ElimEntry>>::empty().push(seg)));
        }
    } else {
        proof {
            assert(plan_with(goodwill_calls(*inp, code@), inp.cfg, out@, Seq::<Seq<ElimEntry>>::empty()));
        }
    }
    out
}

/// A staged transaction can be booked at this node: for a step acquisition recorded
/// here the fair value's excess over the carrying amount fits; for a disposal, its
/// gain or reserve amount fits.
pub open spec fn step_ok(inp: ConsolInput, code: Seq<char>, t: StepTxn) -> bool {
    t.node@ == code ==> if t.txn_type@ == "step_acq"@ {
        dec_sub_result(t.prev_fair_value, t.prev_carrying) is Some
    } else if t.txn_type@ == "disposal"@ {
        disposal_amount(t.loses_control, t.proceeds, t.disposed_share, t.retained_fair_value, t.net_assets_share) is Some
    } else {
        true
    }
}

/// The staged acquisitions and disposals of a node (Err on overflow).
pub(crate) fn step_part(inp: &ConsolInput, code: &str) -> (r: Result<Vec<ElimEntry>, ()>)
    ensures
        r matches Ok(v) ==> plan_gives(step_calls(*inp, code@, inp.step_txns@), inp.cfg, v@),
        r is Ok <==> forall|j: int| 0 <= j < inp.step_txns@.len() ==> #[trigger] step_ok(*inp, code@, inp.step_txns@[j]),
{
    let mut out: Vec<ElimEntry> = Vec::new();
    let ghost mut segs: Seq<Seq<ElimEntry>> = Seq::empty();
    let mut i: usize = 0;
    proof {
        assert(inp.step_txns@.subrange(0, 0) =~= Seq::<StepTxn>::empty());
        lemma_plan_empty(inp.cfg);
    }
    while i < inp.step_txns.len()
        invariant
            i <= inp.step_txns@.len(),
            plan_with(step_calls(*inp, code@, inp.step_txns@.subrange(0, i as int)), inp.cfg, out@, segs),
            forall|j: int| 0 <= j < i ==> #[trigger] step_ok(*inp, code@, inp.step_txns@[j]),
        decreases inp.step_txns@.len() - i,
    {
        let ghost calls0 = step_calls(*inp, code@, inp.step_txns@.subrange(0, i as int));
        proof {
            let q = inp.step_txns@.subrange(0, i + 1);
            assert(q.drop_last() =~= inp.step_txns@.subrange(0, i as int));
            assert(q.last() == inp.step_txns@[i as int]);
        }
        let t = &inp.step_txns[i];
        let ghost step = step_step(*inp, code@, *t);
        let mut got = false;
        let mut me: Option<ElimEntry> = None;
        let ghost mut c = ElimCall::Goodwill { amount: Dec::zero_val(), goodwill_acc: Seq::empty(), impairment_acc: Seq::empty(), rule: Seq::empty() };
        if str_eq(t.node.as_str(), code) {
            let sa_rule = rule_for(&inp.rules, "step_acquisition");
            let gain_acc = nonempty_or(
                match sa_rule {
                    Some(r) => Some(&r.dr_account),
                    None => None,
                },
                "6111",
            );
            if str_eq(t.txn_type.as_str(), "step_acq") {
                let rc = code_or(sa_rule, "R_STEP");
                if dec_checked_sub(t.prev_fair_value, t.prev_carrying).is_none() {
                    proof { assert(!step_ok(*inp, code@, inp.step_txns@[i as int])); }
                    return Err(());
                }
                me = step_acquisition(t.prev_carrying, t.prev_fair_value, inp.cfg.investment_account.as_str(), gain_acc.as_str(), rc.as_str());
                got = true;
                proof {
                    c = ElimCall::StepAcq {
                        prev_carrying: t.prev_carrying,
                        prev_fair_value: t.prev_fair_value,
                        investment_acc: inp.cfg.investment_account@,
                        gain_acc: gain_acc@,
                        rule: rc@,
                    };
                    assert(step == seq![c]);
                }
            } else if str_eq(t.txn_type.as_str(), "disposal") {
                let rc = code_or(rule_for(&inp.rules, "disposal"), "R_DISP");
                let ok = if t.loses_control {
                    match dec_checked_add(t.proceeds, t.retained_fair_value) {
                        Some(x) => dec_checked_sub(x, t.net_assets_share).is_some(),
                        None => false,
                    }
                } else {
                    dec_checked_sub(t.proceeds, t.disposed_share).is_some()
                };
                if !ok {
                    proof { assert(!step_ok(*inp, code@, inp.step_txns@[i as int])); }
                    return Err(());
                }
                me = disposal(
                    t.loses_control,
                    t.proceeds,
                    t.disposed_share,
                    t.retained_fair_value,
                    t.net_assets_share,
                    inp.cfg.nci_account.as_str(),
                    inp.cfg.capital_reserve_account.as_str(),
                    gain_acc.as_str(),
                    rc.as_str(),
                );
                got = true;
                proof {
                    c = ElimCall::Disposal {
                        loses_control: t.loses_control,
                        proceeds: t.proceeds,
                        disposed_share: t.disposed_share,
                        retained_fair_value: t.retained_fair_value,
                        net_assets_share: t.net_assets_share,
                        nci_acc: inp.cfg.nci_account@,
                        reserve_acc: inp.cfg.capital_reserve_account@,
                        gain_acc: gain_acc@,
                        rule: rc@,
                    };
                    assert(step == seq![c]);
                }
            } else {
                assert(step == Seq::<ElimCall>::empty());
            }
        } else {
            assert(step == Seq::<ElimCall>::empty());
        }
        if got {
            let ghost seg = if me is Some {
                seq![me->0]
            } else {
                Seq::<ElimEntry>::empty()
            };
            proof {
                assert(call_gives(c, inp.cfg, seg));
                lemma_plan_step(calls0, inp.cfg, out@, segs, c, seg);
                segs = segs.push(seg);
                assert(calls0.push(c) =~= calls0 + step);
            }
            let ghost before = out@;
            match me {
                Some(e) => {
                    out.push(e);
                },
                None => {},
            }
            proof {
                assert(out@ =~= before + seg);
            }
        } else {
            proof {
                assert(calls0 + step =~= calls0);
            }
        }
        i = i + 1;
    }
    proof {
        assert(inp.step_txns@.subrange(0, inp.step_txns@.len() as int) =~= inp.step_txns@);
    }
    Ok(out)
}

// ----------------------------------------------------------------------------
// The whole of a node
// ----------------------------------------------------------------------------
/// The eliminations a consolidation node books, in order: per direct subordinate
/// (fully or proportionally consolidated) its capital elimination and its minority
/// share of profit; the intercompany items whose two parties first meet here; the
/// unrealised inventory profits and the unrealised fixed-asset profits whose parties
/// first meet here.
pub open spec fn elim_plan(inp: ConsolInput, earlier: Seq<NodeResult>, nd: ScopeNode) -> Seq<ElimCall> {
    let kids = kids_of(inp.nodes@, nd.code@);
    kid_calls(inp, earlier, kids) + ic_calls(inp, nd.code@, kids, inp.ic@) + inventory_calls(inp, nd.code@, kids, inp.interim@)
        + fa_calls(inp, nd.code@, kids, inp.fa_profit@)
}

/// The adjustments a consolidation node books, in order: the equity-method pick-up
/// of each direct subordinate carried at equity, the node's goodwill impairment, its
/// staged acquisitions and disposals.
pub open spec fn adjust_plan(inp: ConsolInput, earlier: Seq<NodeResult>, nd: ScopeNode) -> Seq<ElimCall> {
    pickup_calls(inp, earlier, kids_of(inp.nodes@, nd.code@)) + goodwill_calls(inp, nd.code@) + step_calls(inp, nd.code@, inp.step_txns@)
}

} // verus!
