//! Pure consolidation algorithms (debit-positive convention).
use vstd::prelude::*;
use crate::decimal::{
    Dec, dec_add, dec_sub, dec_mul, dec_add_result, dec_sub_result, dec_mul_result, fits_at, max_nat,
    pow10, max_mantissa, lemma_pow10_pos, lemma_val_multiple, lemma_multiple_add, lemma_fits_mono,
    lemma_add_exact, lemma_sub_exact,
};
use crate::text::copy_str;
use crate::consol::types::{
    ElimLine, ElimEntry, line_net_val, nets_val, nets_exact, balanced_exact, fold_nets,
    is_balanced_spec, lines_for,
};

verus! {

/// Account configuration of the capital elimination (from the consolidation scheme).
#[derive(Clone, Debug)]
pub struct CapitalCfg {
    /// Long-term equity investment (parent's asset, eliminated).
    pub investment_account: String,
    /// Goodwill (the excess).
    pub goodwill_account: String,
    /// Non-controlling interest (equity).
    pub nci_account: String,
    /// Minority share of profit (P&L).
    pub minority_pl_account: String,
    /// Capital reserve (common-control combinations: the excess goes here).
    pub capital_reserve_account: String,
}

/// A line carrying `net` on its debit side when `net >= 0`, else `−net` on its credit side.
pub open spec fn signed_line_is(l: ElimLine, account: Seq<char>, net: Dec) -> bool {
    &&& l.account@ == account
    &&& l.partner is None
    &&& if net.val() >= 0 {
        l.dr == net && l.cr == Dec::zero_val()
    } else {
        l.dr == Dec::zero_val() && l.cr == net.neg_val()
    }
}

/// A line `dr | cr` with a partner.
pub open spec fn line_is(
    l: ElimLine,
    account: Seq<char>,
    dr: Dec,
    cr: Dec,
    partner: Option<Seq<char>>,
) -> bool {
    &&& l.account@ == account
    &&& l.dr == dr
    &&& l.cr == cr
    &&& match partner {
        Some(p) => l.partner matches Some(q) && q@ == p,
        None => l.partner is None,
    }
}

/// Header of an entry.
pub open spec fn header_is(e: ElimEntry, elim_type: Seq<char>, rule: Seq<char>, opening: bool) -> bool {
    &&& e.elim_type@ == elim_type
    &&& e.source_rule@ == rule
    &&& e.is_opening == opening
}

/// The net value of a signed line is its amount.
proof fn lemma_signed_line_net(l: ElimLine, account: Seq<char>, net: Dec)
    requires
        signed_line_is(l, account, net),
        net.wf(),
    ensures
        line_net_val(l) == net.val(),
        l.dr.wf(),
        l.cr.wf(),
        l.dr.scl() <= net.scl(),
        l.cr.scl() <= net.scl(),
{
    Dec::lemma_zero_one();
    net.lemma_negation();
}

/// Negation keeps representability.
proof fn lemma_fits_neg(v: int, s: nat)
    requires
        fits_at(v, s),
    ensures
        fits_at(-v, s),
{
    let p = pow10((28 - s) as nat);
    lemma_pow10_pos((28 - s) as nat);
    lemma_multiple_add(v, v, (28 - s) as nat);
    vstd::arithmetic::div_mod::lemma_fundamental_div_mod(v, p);
    let k = v / p;
    assert(v == p * k);
    assert(-v == p * (-k)) by (nonlinear_arith)
        requires
            v == p * k,
    ;
    vstd::arithmetic::div_mod::lemma_div_multiples_vanish(-k, p);
}

/// Zero fits at every scale.
proof fn lemma_fits_zero(s: nat)
    requires
        s <= 28,
    ensures
        fits_at(0, s),
{
    lemma_pow10_pos((28 - s) as nat);
    vstd::arithmetic::div_mod::lemma_small_mod(0, pow10((28 - s) as nat) as nat);
    vstd::arithmetic::div_mod::lemma_basic_div(0, pow10((28 - s) as nat));
}

/// Two lines with nets `x` and `−x` balance exactly.
proof fn lemma_pair_balanced(e: ElimEntry, x: Dec)
    requires
        x.wf(),
        e.lines@.len() == 2,
        line_net_val(e.lines@[0]) == x.val(),
        line_net_val(e.lines@[1]) == -x.val(),
        forall|i: int|
            0 <= i < 2 ==> (#[trigger] e.lines@[i]).dr.wf() && e.lines@[i].cr.wf()
                && e.lines@[i].dr.scl() <= x.scl() && e.lines@[i].cr.scl() <= x.scl(),
    ensures
        balanced_exact(e),
{
    let s = x.scl();
    let ls = e.lines@;
    x.lemma_fits_own();
    x.lemma_wf();
    lemma_fits_neg(x.val(), s);
    lemma_fits_zero(s);
    assert(ls.subrange(0, 0) =~= Seq::<ElimLine>::empty());
    assert(ls.subrange(0, 1).drop_last() =~= ls.subrange(0, 0));
    assert(ls.subrange(0, 1).last() == ls[0]);
    assert(ls.subrange(0, 2).last() == ls[1]);
    assert(ls.subrange(0, 2).drop_last() =~= ls.subrange(0, 1));
    assert(ls.subrange(0, 2) =~= ls);
    assert(nets_val(ls.subrange(0, 0)) == 0);
    assert(nets_val(ls.subrange(0, 1)) == x.val());
    assert(nets_val(ls) == 0);
    assert forall|k: int| 0 <= k <= ls.len() implies fits_at(#[trigger] nets_val(ls.subrange(0, k)), s) by {
        if k == 0 {
        } else if k == 1 {
        } else {
        }
    }
    assert(nets_exact(ls, s));
}

/// A line with `net` on the debit side (net >= 0) or `−net` on the credit side.
pub fn signed_line(account: &str, net: Dec) -> (r: ElimLine)
    ensures
        signed_line_is(r, account@, net),
{
    let z = Dec::zero();
    if z.le(&net) {
        ElimLine::new(account, net, z)
    } else {
        ElimLine::new(account, z, net.neg())
    }
}

/// A two-line entry moving `amount` between two accounts (signed lines ±amount).
fn pair_entry(
    elim_type: &str,
    rule_code: &str,
    first_account: &str,
    second_account: &str,
    amount: Dec,
) -> (r: ElimEntry)
    ensures
        header_is(r, elim_type@, rule_code@, false),
        r.lines@.len() == 2,
        signed_line_is(r.lines@[0], first_account@, amount),
        signed_line_is(r.lines@[1], second_account@, amount.neg_val()),
        balanced_exact(r),
{
    amount.note_wf();
    let l1 = signed_line(first_account, amount);
    let l2 = signed_line(second_account, amount.neg());
    let mut lines: Vec<ElimLine> = Vec::new();
    lines.push(l1);
    lines.push(l2);
    let e = ElimEntry {
        elim_type: copy_str(elim_type),
        source_rule: copy_str(rule_code),
        is_opening: false,
        lines,
    };
    proof {
        amount.lemma_negation();
        lemma_signed_line_net(e.lines@[0], first_account@, amount);
        lemma_signed_line_net(e.lines@[1], second_account@, amount.neg_val());
        lemma_pair_balanced(e, amount);
    }
    e
}

/// A two-line entry of the given type moving `x`: `first` carries `x`, `second` `−x`.
pub open spec fn pair_is(
    e: ElimEntry,
    elim_type: Seq<char>,
    rule: Seq<char>,
    first: Seq<char>,
    second: Seq<char>,
    x: Dec,
) -> bool {
    &&& header_is(e, elim_type, rule, false)
    &&& e.lines@.len() == 2
    &&& signed_line_is(e.lines@[0], first, x)
    &&& signed_line_is(e.lines@[1], second, x.neg_val())
    &&& balanced_exact(e)
}

/// A two-line entry moving `x` between two accounts debits the first by `x` and
/// credits the second by `x`: the first account's net is `x`, the second's `−x`.
pub proof fn lemma_pair_moves(
    e: ElimEntry,
    elim_type: Seq<char>,
    rule: Seq<char>,
    first: Seq<char>,
    second: Seq<char>,
    x: Dec,
)
    requires
        pair_is(e, elim_type, rule, first, second, x),
        x.wf(),
        first != second,
    ensures
        nets_val(lines_for(e.lines@, first)) == x.val(),
        nets_val(lines_for(e.lines@, second)) == -x.val(),
{
    reveal_with_fuel(Seq::filter, 3);
    let ls = e.lines@;
    let (l0, l1) = (ls[0], ls[1]);
    lemma_signed_line_net(l0, first, x);
    x.lemma_negation();
    lemma_signed_line_net(l1, second, x.neg_val());
    assert(ls.drop_last() =~= seq![l0]);
    assert(ls.drop_last().drop_last() =~= Seq::<ElimLine>::empty());
    assert(lines_for(ls, first) =~= seq![l0]);
    assert(lines_for(ls, second) =~= seq![l1]);
    assert(seq![l0].drop_last() =~= Seq::<ElimLine>::empty());
    assert(seq![l1].drop_last() =~= Seq::<ElimLine>::empty());
    assert(nets_val(Seq::<ElimLine>::empty()) == 0);
}

/// Step acquisition reaching control: the previously held stake is remeasured at
/// fair value; `Dr investment / Cr gain` for `fair − carrying` (reversed when
/// negative); no entry when there is nothing to remeasure.
pub fn step_acquisition(
    prev_carrying: Dec,
    prev_fair_value: Dec,
    investment_account: &str,
    gain_account: &str,
    rule_code: &str,
) -> (r: Option<ElimEntry>)
    requires
        dec_sub_result(prev_fair_value, prev_carrying) is Some,
    ensures
        ({
            let x = dec_sub_result(prev_fair_value, prev_carrying)->0;
            &&& r is None <==> x.val() == 0
            &&& r matches Some(e) ==> pair_is(
                e,
                "step_acquisition"@,
                rule_code@,
                investment_account@,
                gain_account@,
                x,
            )
            &&& fits_at(
                prev_fair_value.val() - prev_carrying.val(),
                max_nat(prev_fair_value.scl(), prev_carrying.scl()),
            ) ==> x.val() == prev_fair_value.val() - prev_carrying.val()
        }),
{
    let remeasure = dec_sub(prev_fair_value, prev_carrying);
    if remeasure.is_zero() {
        return None;
    }
    Some(pair_entry("step_acquisition", rule_code, investment_account, gain_account, remeasure))
}

/// The amount a disposal moves: the gain `proceeds + retained − net assets share`
/// when control is lost, else the equity-transaction difference `proceeds − disposed`.
pub open spec fn disposal_amount(
    loses_control: bool,
    proceeds: Dec,
    disposed_share: Dec,
    retained_fair_value: Dec,
    net_assets_share: Dec,
) -> Option<Dec> {
    if loses_control {
        match dec_add_result(proceeds, retained_fair_value) {
            Some(t) => dec_sub_result(t, net_assets_share),
            None => None,
        }
    } else {
        dec_sub_result(proceeds, disposed_share)
    }
}

/// Disposal of shares.  Losing control: the gain `proceeds + retained fair value −
/// net assets share` is credited to the gain account, the NCI leg offsets it.
/// Keeping control: an equity transaction, `proceeds − disposed share` goes to the
/// capital reserve, the NCI leg offsets it.  No entry for a zero amount.
pub fn disposal(
    loses_control: bool,
    proceeds: Dec,
    disposed_share: Dec,
    retained_fair_value: Dec,
    net_assets_share: Dec,
    nci_account: &str,
    capital_reserve_account: &str,
    gain_account: &str,
    rule_code: &str,
) -> (r: Option<ElimEntry>)
    requires
        disposal_amount(
            loses_control,
            proceeds,
            disposed_share,
            retained_fair_value,
            net_assets_share,
        ) is Some,
    ensures
        ({
            let x = disposal_amount(
                loses_control,
                proceeds,
                disposed_share,
                retained_fair_value,
                net_assets_share,
            )->0;
            &&& r is None <==> x.val() == 0
            &&& r matches Some(e) ==> if loses_control {
                pair_is(e, "disposal_loss_control"@, rule_code@, gain_account@, nci_account@, x.neg_val())
            } else {
                pair_is(e, "disposal_equity_txn"@, rule_code@, capital_reserve_account@, nci_account@, x.neg_val())
            }
        }),
{
    if loses_control {
        let t = dec_add(proceeds, retained_fair_value);
        let pl = dec_sub(t, net_assets_share);
        if pl.is_zero() {
            return None;
        }
        Some(pair_entry("disposal_loss_control", rule_code, gain_account, nci_account, pl.neg()))
    } else {
        let diff = dec_sub(proceeds, disposed_share);
        if diff.is_zero() {
            return None;
        }
        Some(pair_entry("disposal_equity_txn", rule_code, capital_reserve_account, nci_account, diff.neg()))
    }
}

/// Equity-method pickup: `ownership × associate profit` debited to the investment
/// and credited to investment income (reversed for a loss); none when zero.
pub fn equity_pickup(
    associate_net_profit: Dec,
    ownership: Dec,
    investment_account: &str,
    income_account: &str,
    rule_code: &str,
) -> (r: Option<ElimEntry>)
    requires
        dec_mul_result(ownership, associate_net_profit) is Some,
    ensures
        ({
            let x = dec_mul_result(ownership, associate_net_profit)->0;
            &&& r is None <==> x.val() == 0
            &&& r matches Some(e) ==> pair_is(
                e,
                "equity_method"@,
                rule_code@,
                investment_account@,
                income_account@,
                x,
            )
        }),
{
    let amt = dec_mul(ownership, associate_net_profit);
    if amt.is_zero() {
        return None;
    }
    Some(pair_entry("equity_method", rule_code, investment_account, income_account, amt))
}

/// Goodwill impairment: `Dr impairment loss / Cr goodwill` for `amount`; none for zero.
pub fn goodwill_impairment(
    amount: Dec,
    goodwill_account: &str,
    impairment_account: &str,
    rule_code: &str,
) -> (r: Option<ElimEntry>)
    ensures
        r is None <==> amount.val() == 0,
        r matches Some(e) ==> pair_is(
            e,
            "goodwill_impair"@,
            rule_code@,
            impairment_account@,
            goodwill_account@,
            amount,
        ),
{
    if amount.is_zero() {
        return None;
    }
    Some(pair_entry("goodwill_impair", rule_code, impairment_account, goodwill_account, amount))
}

/// Net investment hedge: the effective part moves from the hedging instrument to the
/// translation reserve (CTA); none for zero.
pub fn net_investment_hedge(
    effective_amount: Dec,
    cta_account: &str,
    hedge_instrument_account: &str,
    rule_code: &str,
) -> (r: Option<ElimEntry>)
    ensures
        r is None <==> effective_amount.val() == 0,
        r matches Some(e) ==> pair_is(
            e,
            "net_investment_hedge"@,
            rule_code@,
            hedge_instrument_account@,
            cta_account@,
            effective_amount,
        ),
{
    if effective_amount.is_zero() {
        return None;
    }
    Some(
        pair_entry(
            "net_investment_hedge",
            rule_code,
            hedge_instrument_account,
            cta_account,
            effective_amount,
        ),
    )
}

/// The minority share of a subsidiary's profit: `(1 − ownership) × profit`.
pub open spec fn minority_amount(sub_net_profit: Dec, ownership: Dec) -> Option<Dec> {
    match dec_sub_result(Dec::one_val(), ownership) {
        Some(q) => dec_mul_result(q, sub_net_profit),
        None => None,
    }
}

/// Minority share of profit: `Dr minority P&L / Cr NCI` for `(1 − ownership) ×
/// profit` (reversed for a loss); none when zero.
pub fn minority_pl(
    sub_net_profit: Dec,
    ownership: Dec,
    cfg: &CapitalCfg,
    rule_code: &str,
) -> (r: Option<ElimEntry>)
    requires
        minority_amount(sub_net_profit, ownership) is Some,
    ensures
        ({
            let x = minority_amount(sub_net_profit, ownership)->0;
            &&& r is None <==> x.val() == 0
            &&& r matches Some(e) ==> pair_is(
                e,
                "nci"@,
                rule_code@,
                cfg.minority_pl_account@,
                cfg.nci_account@,
                x,
            )
        }),
{
    let q = dec_sub(Dec::one(), ownership);
    let amt = dec_mul(q, sub_net_profit);
    if amt.is_zero() {
        return None;
    }
    Some(
        pair_entry(
            "nci",
            rule_code,
            cfg.minority_pl_account.as_str(),
            cfg.nci_account.as_str(),
            amt,
        ),
    )
}

/// A matched intercompany balance or transaction pair (from reconciliation).
#[derive(Debug)]
pub struct IcMatch {
    pub entity_a: String,
    pub entity_b: String,
    /// Matched amount (natural sign, positive).
    pub amount: Dec,
}

impl Clone for IcMatch {
    fn clone(&self) -> (r: Self)
        ensures
            r == *self,
    {
        IcMatch { entity_a: self.entity_a.clone(), entity_b: self.entity_b.clone(), amount: self.amount }
    }
}

/// The matches with a non-zero amount.
pub open spec fn nonzero_matches(ms: Seq<IcMatch>) -> Seq<IcMatch> {
    ms.filter(|m: IcMatch| m.amount.val() != 0)
}

/// An entry `Dr first (amount, partner p1) / Cr second (amount, partner p2)`.
pub open spec fn dr_cr_entry_is(
    e: ElimEntry,
    elim_type: Seq<char>,
    rule: Seq<char>,
    opening: bool,
    first: Seq<char>,
    second: Seq<char>,
    amount: Dec,
    p1: Option<Seq<char>>,
    p2: Option<Seq<char>>,
) -> bool {
    &&& header_is(e, elim_type, rule, opening)
    &&& e.lines@.len() == 2
    &&& line_is(e.lines@[0], first, amount, Dec::zero_val(), p1)
    &&& line_is(e.lines@[1], second, Dec::zero_val(), amount, p2)
    &&& balanced_exact(e)
}

/// Builds `Dr first / Cr second` for `amount`.
fn dr_cr_entry(
    elim_type: &str,
    rule_code: &str,
    opening: bool,
    first: &str,
    second: &str,
    amount: Dec,
    p1: Option<String>,
    p2: Option<String>,
) -> (r: ElimEntry)
    ensures
        dr_cr_entry_is(
            r,
            elim_type@,
            rule_code@,
            opening,
            first@,
            second@,
            amount,
            match p1 {
                Some(p) => Some(p@),
                None => None,
            },
            match p2 {
                Some(p) => Some(p@),
                None => None,
            },
        ),
{
    amount.note_wf();
    let z = Dec::zero();
    let l1 = ElimLine { account: copy_str(first), dr: amount, cr: z, partner: p1 };
    let l2 = ElimLine { account: copy_str(second), dr: z, cr: amount, partner: p2 };
    let mut lines: Vec<ElimLine> = Vec::new();
    lines.push(l1);
    lines.push(l2);
    let e = ElimEntry {
        elim_type: copy_str(elim_type),
        source_rule: copy_str(rule_code),
        is_opening: opening,
        lines,
    };
    proof {
        Dec::lemma_zero_one();
        lemma_pair_balanced(e, amount);
    }
    e
}

/// Which partner each line of an intercompany entry names.
pub open spec fn ic_partner(m: IcMatch, first_is_b: bool, line: int) -> Option<Seq<char>> {
    if (line == 0) == first_is_b {
        Some(m.entity_b@)
    } else {
        Some(m.entity_a@)
    }
}

/// One entry per non-zero match: `Dr first / Cr second` for the matched amount.
pub open spec fn ic_entries_are(
    r: Seq<ElimEntry>,
    ms: Seq<IcMatch>,
    elim_type: Seq<char>,
    rule: Seq<char>,
    first: Seq<char>,
    second: Seq<char>,
    first_is_b: bool,
) -> bool {
    &&& r.len() == nonzero_matches(ms).len()
    &&& forall|i: int|
        0 <= i < r.len() ==> dr_cr_entry_is(
            #[trigger] r[i],
            elim_type,
            rule,
            false,
            first,
            second,
            nonzero_matches(ms)[i].amount,
            ic_partner(nonzero_matches(ms)[i], first_is_b, 0),
            ic_partner(nonzero_matches(ms)[i], first_is_b, 1),
        )
}

fn ic_entries(
    matches: &[IcMatch],
    elim_type: &str,
    rule_code: &str,
    first: &str,
    second: &str,
    first_is_b: bool,
) -> (r: Vec<ElimEntry>)
    ensures
        ic_entries_are(r@, matches@, elim_type@, rule_code@, first@, second@, first_is_b),
{
    let mut out: Vec<ElimEntry> = Vec::new();
    let mut i: usize = 0;
    proof {
        reveal(Seq::filter);
        assert(nonzero_matches(matches@.subrange(0, 0)) =~= Seq::<IcMatch>::empty());
    }
    while i < matches.len()
        invariant
            i <= matches@.len(),
            ic_entries_are(
                out@,
                matches@.subrange(0, i as int),
                elim_type@,
                rule_code@,
                first@,
                second@,
                first_is_b,
            ),
        decreases matches@.len() - i,
    {
        let m = &matches[i];
        let nz = !m.amount.is_zero();
        if nz {
            let a = m.entity_a.clone();
            let b = m.entity_b.clone();
            let e = if first_is_b {
                dr_cr_entry(elim_type, rule_code, false, first, second, m.amount, Some(b), Some(a))
            } else {
                dr_cr_entry(elim_type, rule_code, false, first, second, m.amount, Some(a), Some(b))
            };
            out.push(e);
        }
        proof {
            reveal(Seq::filter);
            let nx = matches@.subrange(0, i + 1);
            assert(nx.drop_last() =~= matches@.subrange(0, i as int));
            assert(nx.last() == matches@[i as int]);
        }
        i = i + 1;
    }
    proof {
        assert(matches@.subrange(0, matches@.len() as int) =~= matches@);
    }
    out
}

/// Debt elimination: per non-zero match, `Dr payable (partner b) / Cr receivable
/// (partner a)` for the matched amount.
pub fn debt_elimination(
    matches: &[IcMatch],
    payable_account: &str,
    receivable_account: &str,
    rule_code: &str,
) -> (r: Vec<ElimEntry>)
    ensures
        ic_entries_are(
            r@,
            matches@,
            "debt"@,
            rule_code@,
            payable_account@,
            receivable_account@,
            true,
        ),
{
    ic_entries(matches, "debt", rule_code, payable_account, receivable_account, true)
}

/// Intercompany sales elimination: per non-zero match, `Dr revenue (partner a) / Cr
/// cost (partner b)`.
pub fn sales_elimination(
    matches: &[IcMatch],
    revenue_account: &str,
    cost_account: &str,
    rule_code: &str,
) -> (r: Vec<ElimEntry>)
    ensures
        ic_entries_are(r@, matches@, "sales"@, rule_code@, revenue_account@, cost_account@, false),
{
    ic_entries(matches, "sales", rule_code, revenue_account, cost_account, false)
}

/// Intragroup dividend elimination: per non-zero match, `Dr investment income
/// (partner a = parent) / Cr retained earnings (partner b = subsidiary)`.
pub fn dividend_elimination(
    matches: &[IcMatch],
    investment_income_account: &str,
    retained_earnings_account: &str,
    rule_code: &str,
) -> (r: Vec<ElimEntry>)
    ensures
        ic_entries_are(
            r@,
            matches@,
            "dividend"@,
            rule_code@,
            investment_income_account@,
            retained_earnings_account@,
            false,
        ),
{
    ic_entries(
        matches,
        "dividend",
        rule_code,
        investment_income_account,
        retained_earnings_account,
        false,
    )
}

/// Unrealised intragroup profit in inventory (opening and ending).
#[derive(Clone, Debug)]
pub struct InventoryProfit {
    pub seller: String,
    pub buyer: String,
    /// Unrealised profit in opening inventory (carried from last period).
    pub opening: Dec,
    /// Unrealised profit in ending inventory (arising this period).
    pub ending: Dec,
}

/// Inventory profit elimination: an opening carry-forward entry when the opening
/// profit is non-zero (`Dr opening retained earnings / Cr cost (seller)`), then the
/// ending elimination when the ending profit is non-zero (`Dr cost (seller) / Cr
/// inventory (buyer)`).
pub fn inventory_profit_elimination(
    p: &InventoryProfit,
    cost_account: &str,
    inventory_account: &str,
    opening_re_account: &str,
    rule_code: &str,
    opening_rule_code: &str,
) -> (r: Vec<ElimEntry>)
    ensures
        r@.len() == (if p.opening.val() != 0 {
            1int
        } else {
            0int
        }) + (if p.ending.val() != 0 {
            1int
        } else {
            0int
        }),
        p.opening.val() != 0 ==> dr_cr_entry_is(
            r@[0],
            "inventory_opening"@,
            opening_rule_code@,
            true,
            opening_re_account@,
            cost_account@,
            p.opening,
            None,
            Some(p.seller@),
        ),
        p.ending.val() != 0 ==> dr_cr_entry_is(
            r@[r@.len() - 1],
            "inventory"@,
            rule_code@,
            false,
            cost_account@,
            inventory_account@,
            p.ending,
            Some(p.seller@),
            Some(p.buyer@),
        ),
{
    let mut out: Vec<ElimEntry> = Vec::new();
    if !p.opening.is_zero() {
        out.push(
            dr_cr_entry(
                "inventory_opening",
                opening_rule_code,
                true,
                opening_re_account,
                cost_account,
                p.opening,
                None,
                Some(p.seller.clone()),
            ),
        );
    }
    if !p.ending.is_zero() {
        out.push(
            dr_cr_entry(
                "inventory",
                rule_code,
                false,
                cost_account,
                inventory_account,
                p.ending,
                Some(p.seller.clone()),
                Some(p.buyer.clone()),
            ),
        );
    }
    out
}

/// Unrealised intragroup profit in a fixed asset (with depreciation reversal).
#[derive(Clone, Debug)]
pub struct FixedAssetProfit {
    pub seller: String,
    pub buyer: String,
    /// Unrealised profit in the asset's cost.
    pub unrealized: Dec,
    /// The buyer's total depreciation years (> 0).
    pub dep_years: Dec,
    /// Years used up to period end.
    pub elapsed_years: Dec,
}

/// The excess depreciation `unrealized × elapsed / years`.
pub open spec fn excess_depreciation(p: FixedAssetProfit) -> Option<Dec> {
    match dec_mul_result(p.unrealized, p.elapsed_years) {
        Some(t) => crate::decimal::dec_div_result(t, p.dep_years),
        None => None,
    }
}

/// Whether the depreciation reversal applies.
pub open spec fn depreciation_applies(p: FixedAssetProfit) -> bool {
    p.dep_years.val() > 0 && p.elapsed_years.val() > 0 && p.unrealized.val() != 0
}

/// Fixed-asset profit elimination: `Dr gain (seller) / Cr asset (buyer)` for the
/// unrealised profit (when non-zero), then the reversal of the excess depreciation
/// `unrealized × elapsed / years` (`Dr accumulated depreciation / Cr expense`) when
/// years and elapsed years are positive and the excess is non-zero.
pub fn fixed_asset_profit_elimination(
    p: &FixedAssetProfit,
    gain_account: &str,
    asset_account: &str,
    accum_dep_account: &str,
    expense_account: &str,
    rule_code: &str,
    dep_rule_code: &str,
) -> (r: Vec<ElimEntry>)
    requires
        depreciation_applies(*p) ==> excess_depreciation(*p) is Some,
    ensures
        ({
            let has_first = p.unrealized.val() != 0;
            let has_dep = depreciation_applies(*p) && excess_depreciation(*p)->0.val() != 0;
            &&& r@.len() == (if has_first {
                1int
            } else {
                0int
            }) + (if has_dep {
                1int
            } else {
                0int
            })
            &&& has_first ==> dr_cr_entry_is(
                r@[0],
                "fixed_asset_profit"@,
                rule_code@,
                false,
                gain_account@,
                asset_account@,
                p.unrealized,
                Some(p.seller@),
                Some(p.buyer@),
            )
            &&& has_dep ==> pair_is(
                r@[r@.len() - 1],
                "fixed_asset_depreciation"@,
                dep_rule_code@,
                accum_dep_account@,
                expense_account@,
                excess_depreciation(*p)->0,
            )
        }),
{
    let mut out: Vec<ElimEntry> = Vec::new();
    if !p.unrealized.is_zero() {
        out.push(
            dr_cr_entry(
                "fixed_asset_profit",
                rule_code,
                false,
                gain_account,
                asset_account,
                p.unrealized,
                Some(p.seller.clone()),
                Some(p.buyer.clone()),
            ),
        );
    }
    let z = Dec::zero();
    if z.lt(&p.dep_years) && z.lt(&p.elapsed_years) && !p.unrealized.is_zero() {
        let t = dec_mul(p.unrealized, p.elapsed_years);
        let excess = crate::decimal::dec_div(t, p.dep_years);
        if !excess.is_zero() {
            out.push(
                pair_entry(
                    "fixed_asset_depreciation",
                    dep_rule_code,
                    accum_dep_account,
                    expense_account,
                    excess,
                ),
            );
        }
    }
    out
}

/// The running `Decimal` sum of the amounts of (code, amount) pairs, from zero.
pub open spec fn fold_amounts(s: Seq<(String, Dec)>) -> Option<Dec>
    decreases s.len(),
{
    if s.len() == 0 {
        Some(Dec::zero_val())
    } else {
        match fold_amounts(s.drop_last()) {
            Some(acc) => dec_add_result(acc, s.last().1),
            None => None,
        }
    }
}

/// The exact sum of the amounts.
pub open spec fn amounts_val(s: Seq<(String, Dec)>) -> int
    decreases s.len(),
{
    if s.len() == 0 {
        0
    } else {
        amounts_val(s.drop_last()) + s.last().1.val()
    }
}

/// The exact sum of the magnitudes of the amounts.
pub open spec fn amounts_abs(s: Seq<(String, Dec)>) -> int
    decreases s.len(),
{
    if s.len() == 0 {
        0
    } else {
        amounts_abs(s.drop_last()) + abs_int(s.last().1.val())
    }
}

/// The largest scale among the amounts.
pub open spec fn amounts_scale(s: Seq<(String, Dec)>) -> nat
    decreases s.len(),
{
    if s.len() == 0 {
        0
    } else {
        max_nat(amounts_scale(s.drop_last()), s.last().1.scl())
    }
}

pub open spec fn abs_int(v: int) -> int {
    if v < 0 {
        -v
    } else {
        v
    }
}

/// The amounts a capital elimination derives: book equity (the negated sum of the
/// subsidiary's equity), the NCI `(1 − p) × book` and the excess `investment − p × book`.
pub struct CapitalAmounts {
    pub book: Dec,
    pub nci: Dec,
    pub excess: Dec,
}

pub open spec fn capital_amounts(
    sub_equity: Seq<(String, Dec)>,
    investment: Dec,
    ownership: Dec,
) -> Option<CapitalAmounts> {
    match fold_amounts(sub_equity) {
        Some(sum) => {
            let book = sum.neg_val();
            match dec_sub_result(Dec::one_val(), ownership) {
                Some(q) => match dec_mul_result(q, book) {
                    Some(nci) => match dec_mul_result(ownership, book) {
                        Some(pe) => match dec_sub_result(investment, pe) {
                            Some(excess) => Some(CapitalAmounts { book, nci, excess }),
                            None => None,
                        },
                        None => None,
                    },
                    None => None,
                },
                None => None,
            }
        },
        None => None,
    }
}

/// The lines of a capital elimination: each equity account zeroed (signed line of
/// the negated amount), the investment credited, the NCI credited (when non-zero),
/// the excess on `excess_account` (when non-zero).
pub open spec fn capital_lines_are(
    lines: Seq<ElimLine>,
    sub_equity: Seq<(String, Dec)>,
    investment: Dec,
    cfg: CapitalCfg,
    excess_account: Seq<char>,
    a: CapitalAmounts,
) -> bool {
    let n = sub_equity.len();
    let has_nci = a.nci.val() != 0;
    let has_excess = a.excess.val() != 0;
    &&& lines.len() == n + 1 + (if has_nci {
        1int
    } else {
        0int
    }) + (if has_excess {
        1int
    } else {
        0int
    })
    &&& forall|i: int|
        0 <= i < n ==> signed_line_is(
            #[trigger] lines[i],
            sub_equity[i].0@,
            sub_equity[i].1.neg_val(),
        )
    &&& line_is(lines[n as int], cfg.investment_account@, Dec::zero_val(), investment, None)
    &&& has_nci ==> signed_line_is(lines[n + 1int], cfg.nci_account@, a.nci.neg_val())
    &&& has_excess ==> signed_line_is(lines[lines.len() - 1], excess_account, a.excess)
}

/// Capital elimination core, shared by both variants.
fn capital_core(
    sub_equity: &[(String, Dec)],
    investment: Dec,
    ownership: Dec,
    cfg: &CapitalCfg,
    rule_code: &str,
    common_control: bool,
) -> (r: ElimEntry)
    requires
        capital_amounts(sub_equity@, investment, ownership) is Some,
    ensures
        header_is(
            r,
            if common_control {
                "capital_common_control"@
            } else {
                "capital"@
            },
            rule_code@,
            false,
        ),
        capital_lines_are(
            r.lines@,
            sub_equity@,
            investment,
            *cfg,
            if common_control {
                cfg.capital_reserve_account@
            } else {
                cfg.goodwill_account@
            },
            capital_amounts(sub_equity@, investment, ownership)->0,
        ),
        capital_exact_bounds(sub_equity@, investment, ownership) ==> balanced_exact(r),
{
    let ghost se = sub_equity@;
    let ghost bounds = capital_exact_bounds(se, investment, ownership);
    let ghost t = capital_scale(se, investment, ownership);
    let ghost am = capital_magnitude(se, investment);
    let n = sub_equity.len();
    let mut sum = Dec::zero();
    let mut i: usize = 0;
    proof {
        assert(se.subrange(0, 0) =~= Seq::<(String, Dec)>::empty());
        Dec::lemma_zero_one();
    }
    while i < n
        invariant
            n == se.len(),
            se == sub_equity@,
            i <= n,
            capital_amounts(se, investment, ownership) is Some,
            fold_amounts(se) is Some,
            fold_amounts(se.subrange(0, i as int)) == Some(sum),
            bounds == capital_exact_bounds(se, investment, ownership),
            t == capital_scale(se, investment, ownership),
            am == capital_magnitude(se, investment),
            sum.wf(),
            bounds ==> sum.val() == amounts_val(se.subrange(0, i as int)) && sum.scl()
                <= amounts_scale(se.subrange(0, i as int)),
        decreases n - i,
    {
        let ghost pre = se.subrange(0, i as int);
        let ghost nxt = se.subrange(0, i + 1);
        proof {
            lemma_fold_amounts_prefix(se, i + 1);
            assert(nxt.drop_last() =~= pre);
            assert(nxt.last() == se[i as int]);
        }
        let x = sub_equity[i].1;
        proof {
            if bounds {
                let s_all = amounts_scale(se);
                lemma_amounts_basic(se);
                lemma_amounts_prefix(se, i + 1);
                lemma_amounts_basic(nxt);
                crate::decimal::lemma_pow10_mono((28 - t) as nat, (28 - s_all) as nat);
                lemma_pow10_pos((28 - t) as nat);
                assert(abs_int(amounts_val(nxt)) <= am);
                assert(4 * am <= max_mantissa() * pow10((28 - t) as nat));
                assert(max_mantissa() * pow10((28 - t) as nat) <= max_mantissa() * pow10(
                    (28 - s_all) as nat,
                )) by (nonlinear_arith)
                    requires
                        pow10((28 - t) as nat) <= pow10((28 - s_all) as nat),
                        max_mantissa() > 0,
                ;
                assert(am >= 0);
                assert(forall|j: int| 0 <= j < nxt.len() ==> nxt[j] == se[j]);
                assert forall|j: int| 0 <= j < nxt.len() implies (#[trigger] nxt[j]).1.wf()
                    && nxt[j].1.scl() <= s_all by {
                    assert(nxt[j] == se[j]);
                }
                lemma_amounts_mult(nxt, s_all);
                lemma_fits_from_bound(amounts_val(nxt), s_all);
                x.lemma_wf();
                lemma_add_exact(sum, x, s_all);
                assert(amounts_val(nxt) == amounts_val(pre) + x.val());
            }
        }
        sum = dec_add(sum, x);
        proof {
            if bounds {
                lemma_amounts_basic(nxt);
                assert(amounts_scale(nxt) == max_nat(amounts_scale(pre), x.scl()));
            }
        }
        i = i + 1;
    }
    proof {
        assert(se.subrange(0, n as int) =~= se);
    }
    let book = sum.neg();
    proof {
        sum.lemma_negation();
    }
    let mut lines: Vec<ElimLine> = Vec::new();
    let mut j: usize = 0;
    while j < n
        invariant
            n == sub_equity@.len(),
            j <= n,
            lines@.len() == j,
            forall|k: int|
                0 <= k < j ==> signed_line_is(
                    #[trigger] lines@[k],
                    sub_equity@[k].0@,
                    sub_equity@[k].1.neg_val(),
                ),
        decreases n - j,
    {
        let l = signed_line(sub_equity[j].0.as_str(), sub_equity[j].1.neg());
        lines.push(l);
        j = j + 1;
    }
    lines.push(ElimLine::new(cfg.investment_account.as_str(), Dec::zero(), investment));
    let one = Dec::one();
    proof {
        if bounds {
            ownership.lemma_wf();
            lemma_pow10_pos(28);
            lemma_pow10_pos((28 - ownership.scl()) as nat);
            lemma_val_multiple(one, ownership.scl());
            lemma_val_multiple(ownership, ownership.scl());
            lemma_multiple_add(one.val(), ownership.val(), (28 - ownership.scl()) as nat);
            crate::decimal::lemma_pow10_28();
            assert(pow10(28) <= max_mantissa() * pow10((28 - ownership.scl()) as nat)) by (
            nonlinear_arith)
                requires
                    pow10(28) == 10000000000000000000000000000int,
                    pow10((28 - ownership.scl()) as nat) >= 1,
            {
            }
            crate::decimal::lemma_pow10_28();
            lemma_fits_from_bound(one.val() - ownership.val(), ownership.scl());
            lemma_sub_exact(one, ownership, ownership.scl());
        }
    }
    let q = dec_sub(one, ownership);
    proof {
        if bounds {
            lemma_amounts_basic(se);
            assert(abs_int(book.val()) <= am);
            assert(amounts_scale(se) <= t);
            lemma_mul_small(q, book, t, am);
            lemma_mul_small(ownership, book, t, am);
        }
    }
    let nci = dec_mul(q, book);
    if !nci.is_zero() {
        lines.push(signed_line(cfg.nci_account.as_str(), nci.neg()));
    }
    let pe = dec_mul(ownership, book);
    proof {
        if bounds {
            let p28 = pow10(28);
            lemma_pow10_pos(28);
            lemma_product_bound(nci.val(), q.val(), book.val(), p28);
            lemma_product_bound(pe.val(), ownership.val(), book.val(), p28);
            assert((nci.val() + pe.val()) * p28 == (q.val() + ownership.val()) * book.val())
                by (nonlinear_arith)
                requires
                    nci.val() * p28 == q.val() * book.val(),
                    pe.val() * p28 == ownership.val() * book.val(),
            ;
            assert(nci.val() + pe.val() == book.val()) by (nonlinear_arith)
                requires
                    (nci.val() + pe.val()) * p28 == p28 * book.val(),
                    p28 > 0,
            ;
            lemma_mult(investment, t);
            lemma_mult(pe, t);
            lemma_multiple_add(investment.val(), pe.val(), (28 - t) as nat);
            investment.lemma_wf();
            lemma_fits_from_bound(investment.val() - pe.val(), t);
            lemma_sub_exact(investment, pe, t);
        }
    }
    let excess = dec_sub(investment, pe);
    if !excess.is_zero() {
        if common_control {
            lines.push(signed_line(cfg.capital_reserve_account.as_str(), excess));
        } else {
            lines.push(signed_line(cfg.goodwill_account.as_str(), excess));
        }
    }
    let e = ElimEntry {
        elim_type: if common_control {
            copy_str("capital_common_control")
        } else {
            copy_str("capital")
        },
        source_rule: copy_str(rule_code),
        is_opening: false,
        lines,
    };
    proof {
        if bounds {
            let excess_account = if common_control {
                cfg.capital_reserve_account@
            } else {
                cfg.goodwill_account@
            };
            let amounts = CapitalAmounts { book, nci, excess };
            lemma_capital_balanced(
                e.lines@,
                se,
                investment,
                ownership,
                *cfg,
                excess_account,
                amounts,
                pe,
            );
        }
    }
    e
}

/// Capital elimination (investment against the subsidiary's equity): every equity
/// account is zeroed, the investment credited, the NCI `(1 − p) × book equity`
/// credited, and the excess `investment − p × book equity` booked as goodwill (debit
/// when positive, credit when negative).  Balances exactly whenever the decimal
/// arithmetic is exact (see `capital_exact_bounds`).
pub fn capital_elimination(
    sub_equity: &[(String, Dec)],
    investment: Dec,
    ownership: Dec,
    cfg: &CapitalCfg,
    rule_code: &str,
) -> (r: ElimEntry)
    requires
        capital_amounts(sub_equity@, investment, ownership) is Some,
    ensures
        header_is(r, "capital"@, rule_code@, false),
        capital_lines_are(
            r.lines@,
            sub_equity@,
            investment,
            *cfg,
            cfg.goodwill_account@,
            capital_amounts(sub_equity@, investment, ownership)->0,
        ),
        capital_exact_bounds(sub_equity@, investment, ownership) ==> balanced_exact(r),
{
    capital_core(sub_equity, investment, ownership, cfg, rule_code, false)
}

/// Capital elimination under common control (pooling): as `capital_elimination`, but
/// no goodwill — the excess goes to the capital reserve.
pub fn common_control_elimination(
    sub_equity: &[(String, Dec)],
    investment: Dec,
    ownership: Dec,
    cfg: &CapitalCfg,
    rule_code: &str,
) -> (r: ElimEntry)
    requires
        capital_amounts(sub_equity@, investment, ownership) is Some,
    ensures
        header_is(r, "capital_common_control"@, rule_code@, false),
        capital_lines_are(
            r.lines@,
            sub_equity@,
            investment,
            *cfg,
            cfg.capital_reserve_account@,
            capital_amounts(sub_equity@, investment, ownership)->0,
        ),
        capital_exact_bounds(sub_equity@, investment, ownership) ==> balanced_exact(r),
{
    capital_core(sub_equity, investment, ownership, cfg, rule_code, true)
}

/// Whether an entry's running sum of nets can be computed.
pub open spec fn balance_computable(e: ElimEntry) -> bool {
    fold_nets(e.lines@) is Some || exists|s: nat| nets_exact(e.lines@, s)
}

/// Whether every entry balances.
pub fn all_balanced(entries: &[ElimEntry]) -> (r: bool)
    requires
        forall|i: int| 0 <= i < entries@.len() ==> balance_computable(#[trigger] entries@[i]),
    ensures
        r == forall|i: int| 0 <= i < entries@.len() ==> is_balanced_spec(#[trigger] entries@[i]),
        (forall|i: int| 0 <= i < entries@.len() ==> balanced_exact(#[trigger] entries@[i])) ==> r,
{
    let mut i: usize = 0;
    while i < entries.len()
        invariant
            i <= entries@.len(),
            forall|j: int| 0 <= j < entries@.len() ==> balance_computable(#[trigger] entries@[j]),
            forall|j: int| 0 <= j < i ==> is_balanced_spec(#[trigger] entries@[j]),
        decreases entries@.len() - i,
    {
        let b = entries[i].is_balanced();
        if !b {
            proof {
                if forall|j: int| 0 <= j < entries@.len() ==> balanced_exact(#[trigger] entries@[j]) {
                    assert(balanced_exact(entries@[i as int]));
                }
            }
            return false;
        }
        i = i + 1;
    }
    true
}

/// Goodwill impairment test: the shortfall `carrying − recoverable` when positive,
/// capped at the goodwill carried (never below zero); zero otherwise.
pub fn goodwill_impairment_test(
    carrying_amount: Dec,
    recoverable_amount: Dec,
    goodwill_carrying: Dec,
) -> (r: Dec)
    requires
        dec_sub_result(carrying_amount, recoverable_amount) is Some,
    ensures
        ({
            let sh = dec_sub_result(carrying_amount, recoverable_amount)->0;
            let cap = if goodwill_carrying.val() < 0 {
                0
            } else {
                goodwill_carrying.val()
            };
            &&& sh.val() <= 0 ==> r.val() == 0
            &&& sh.val() > 0 ==> r.val() == if cap < sh.val() {
                cap
            } else {
                sh.val()
            }
            &&& 0 <= r.val() <= cap
        }),
{
    let shortfall = dec_sub(carrying_amount, recoverable_amount);
    let z = Dec::zero();
    proof {
        Dec::lemma_zero_one();
    }
    if shortfall.le(&z) {
        return z;
    }
    shortfall.min(goodwill_carrying.max(z))
}

/// The goodwill impairment test where the shortfall `carrying − recoverable` fits,
/// None where it does not.
pub fn try_goodwill_impairment_test(carrying_amount: Dec, recoverable_amount: Dec, goodwill_carrying: Dec) -> (r: Option<
    Dec,
>)
    ensures
        r is Some <==> dec_sub_result(carrying_amount, recoverable_amount) is Some,
        r matches Some(x) ==> ({
            let sh = dec_sub_result(carrying_amount, recoverable_amount)->0;
            let cap = if goodwill_carrying.val() < 0 {
                0
            } else {
                goodwill_carrying.val()
            };
            &&& sh.val() <= 0 ==> x.val() == 0
            &&& sh.val() > 0 ==> x.val() == if cap < sh.val() {
                cap
            } else {
                sh.val()
            }
            &&& 0 <= x.val() <= cap
        }),
{
    match crate::decimal::dec_checked_sub(carrying_amount, recoverable_amount) {
        Some(_) => Some(goodwill_impairment_test(carrying_amount, recoverable_amount, goodwill_carrying)),
        None => None,
    }
}

/// From `r × p = x × y` with `|x| <= p`: `|r| <= |y|`.
proof fn lemma_product_bound(r: int, x: int, y: int, p: int)
    requires
        p > 0,
        r * p == x * y,
        abs_int(x) <= p,
    ensures
        abs_int(r) <= abs_int(y),
{
    assert(abs_int(r) * p == abs_int(x) * abs_int(y)) by (nonlinear_arith)
        requires
            r * p == x * y,
            p > 0,
            abs_int(r) == if r < 0 {
                -r
            } else {
                r
            },
            abs_int(x) == if x < 0 {
                -x
            } else {
                x
            },
            abs_int(y) == if y < 0 {
                -y
            } else {
                y
            },
    ;
    assert(abs_int(r) <= abs_int(y)) by (nonlinear_arith)
        requires
            abs_int(r) * p == abs_int(x) * abs_int(y),
            abs_int(x) <= p,
            p > 0,
            abs_int(y) >= 0,
            abs_int(r) >= 0,
    ;
}

/// A multiple of 10^(28 - t) no larger in magnitude than `max_mantissa × 10^(28 - t)`
/// fits at scale `t`.
pub proof fn lemma_fits_from_bound(v: int, t: nat)
    requires
        t <= 28,
        v % pow10((28 - t) as nat) == 0,
        abs_int(v) <= max_mantissa() * pow10((28 - t) as nat),
    ensures
        fits_at(v, t),
{
    let p = pow10((28 - t) as nat);
    lemma_pow10_pos((28 - t) as nat);
    vstd::arithmetic::div_mod::lemma_fundamental_div_mod(v, p);
    let k = v / p;
    assert(v == p * k);
    assert(-max_mantissa() <= k <= max_mantissa()) by (nonlinear_arith)
        requires
            v == p * k,
            p > 0,
            abs_int(v) <= max_mantissa() * p,
            abs_int(v) == if v < 0 {
                -v
            } else {
                v
            },
    ;
}

/// Facts about prefixes of amount lists.
pub proof fn lemma_amounts_prefix(s: Seq<(String, Dec)>, k: int)
    requires
        0 <= k <= s.len(),
    ensures
        amounts_abs(s.subrange(0, k)) <= amounts_abs(s),
        abs_int(amounts_val(s.subrange(0, k))) <= amounts_abs(s.subrange(0, k)),
        amounts_scale(s.subrange(0, k)) <= amounts_scale(s),
        amounts_abs(s.subrange(0, k)) >= 0,
    decreases s.len() - k,
{
    if k < s.len() {
        lemma_amounts_prefix(s, k + 1);
        let a = s.subrange(0, k + 1);
        assert(a.drop_last() =~= s.subrange(0, k));
        lemma_amounts_basic(a);
        lemma_amounts_basic(s.subrange(0, k));
    } else {
        assert(s.subrange(0, k) =~= s);
        lemma_amounts_basic(s);
    }
}

pub proof fn lemma_amounts_basic(s: Seq<(String, Dec)>)
    ensures
        abs_int(amounts_val(s)) <= amounts_abs(s),
        amounts_abs(s) >= 0,
        forall|i: int|
            0 <= i < s.len() ==> (#[trigger] s[i]).1.scl() <= amounts_scale(s) && abs_int(s[i].1.val())
                <= amounts_abs(s),
    decreases s.len(),
{
    if s.len() > 0 {
        let p = s.drop_last();
        lemma_amounts_basic(p);
        assert forall|i: int| 0 <= i < s.len() implies (#[trigger] s[i]).1.scl() <= amounts_scale(s)
            && abs_int(s[i].1.val()) <= amounts_abs(s) by {
            if i < s.len() - 1 {
                assert(p[i] == s[i]);
            }
        }
    }
}

/// The value of a well-formed decimal with scale at most `t` is a multiple of
/// 10^(28 - t).
proof fn lemma_mult(d: Dec, t: nat)
    requires
        d.wf(),
        d.scl() <= t <= 28,
    ensures
        d.val() % pow10((28 - t) as nat) == 0,
{
    lemma_val_multiple(d, t);
}

/// The product of a decimal of magnitude at most 1 and one of magnitude at most `a`
/// keeps its mantissa below 2^96 when `4a` fits at the combined scale.
pub proof fn lemma_mul_small(x: Dec, y: Dec, t: nat, a: int)
    requires
        x.wf(),
        y.wf(),
        x.scl() + y.scl() <= t <= 28,
        abs_int(x.val()) <= pow10(28),
        abs_int(y.val()) <= a,
        4 * a <= max_mantissa() * pow10((28 - t) as nat),
    ensures
        -max_mantissa() <= x.mant() * y.mant() <= max_mantissa(),
{
    let sx = x.scl();
    let sy = y.scl();
    let px = pow10((28 - sx) as nat);
    let py = pow10((28 - sy) as nat);
    let psx = pow10(sx);
    let pt = pow10((28 - t) as nat);
    let pxy = pow10((28 - sx - sy) as nat);
    lemma_pow10_pos((28 - sx) as nat);
    lemma_pow10_pos((28 - sy) as nat);
    lemma_pow10_pos(sx);
    lemma_pow10_pos((28 - t) as nat);
    lemma_pow10_pos((28 - sx - sy) as nat);
    crate::decimal::lemma_pow10_add(sx, (28 - sx) as nat);
    assert((sx + (28 - sx)) as nat == 28);
    crate::decimal::lemma_pow10_add(sx, (28 - sx - sy) as nat);
    assert((sx + (28 - sx - sy)) as nat == (28 - sy) as nat);
    crate::decimal::lemma_pow10_mono((28 - t) as nat, (28 - sx - sy) as nat);
    let mx = x.mant();
    let my = y.mant();
    assert(x.val() == mx * px);
    assert(y.val() == my * py);
    // |mx| <= 10^sx
    assert(abs_int(mx) <= psx) by (nonlinear_arith)
        requires
            abs_int(mx * px) <= psx * px,
            px > 0,
            abs_int(mx) == if mx < 0 {
                -mx
            } else {
                mx
            },
            abs_int(mx * px) == if mx * px < 0 {
                -(mx * px)
            } else {
                mx * px
            },
    ;
    assert(abs_int(my) * py <= a) by (nonlinear_arith)
        requires
            abs_int(my * py) <= a,
            py > 0,
            abs_int(my) == if my < 0 {
                -my
            } else {
                my
            },
            abs_int(my * py) == if my * py < 0 {
                -(my * py)
            } else {
                my * py
            },
    ;
    assert(abs_int(mx * my) == abs_int(mx) * abs_int(my)) by (nonlinear_arith)
        requires
            abs_int(mx * my) == if mx * my < 0 {
                -(mx * my)
            } else {
                mx * my
            },
            abs_int(mx) == if mx < 0 {
                -mx
            } else {
                mx
            },
            abs_int(my) == if my < 0 {
                -my
            } else {
                my
            },
    ;
    // |mx my| * py <= psx * a <= psx * maxm * pxy / 4 = maxm * py / 4
    assert(4 * abs_int(mx * my) <= max_mantissa()) by (nonlinear_arith)
        requires
            abs_int(mx) <= psx,
            abs_int(my) * py <= a,
            4 * a <= max_mantissa() * pt,
            pt <= pxy,
            py == psx * pxy,
            py > 0,
            psx > 0,
            abs_int(mx) >= 0,
            abs_int(my) >= 0,
            abs_int(mx * my) == abs_int(mx) * abs_int(my),
            max_mantissa() > 0,
    {
        assert(abs_int(mx) * abs_int(my) * py <= psx * a);
        assert(4 * psx * a <= psx * max_mantissa() * pt);
        assert(psx * max_mantissa() * pt <= psx * max_mantissa() * pxy);
        assert(psx * max_mantissa() * pxy == max_mantissa() * py);
    }
}

/// The largest scale a capital elimination can produce: the largest scale of the
/// equity amounts and the investment, plus the ownership's.
pub open spec fn capital_scale(se: Seq<(String, Dec)>, investment: Dec, ownership: Dec) -> nat {
    max_nat(amounts_scale(se), investment.scl()) + ownership.scl()
}

/// The total magnitude of the inputs of a capital elimination.
pub open spec fn capital_magnitude(se: Seq<(String, Dec)>, investment: Dec) -> int {
    amounts_abs(se) + abs_int(investment.val())
}

/// Inputs under which every decimal operation of a capital elimination is exact:
/// an ownership between 0 and 1, and amounts small enough that four times their total
/// magnitude can still be written at the largest scale the computation reaches.
pub open spec fn capital_exact_bounds(se: Seq<(String, Dec)>, investment: Dec, ownership: Dec) -> bool {
    &&& forall|i: int| 0 <= i < se.len() ==> (#[trigger] se[i]).1.wf()
    &&& investment.wf()
    &&& ownership.wf()
    &&& capital_scale(se, investment, ownership) <= 28
    &&& 0 <= ownership.val() <= pow10(28)
    &&& 4 * capital_magnitude(se, investment) <= max_mantissa() * pow10(
        (28 - capital_scale(se, investment, ownership)) as nat,
    )
}

/// The sum of amounts with scales at most `t` is a multiple of 10^(28 - t).
pub proof fn lemma_amounts_mult(s: Seq<(String, Dec)>, t: nat)
    requires
        t <= 28,
        forall|i: int| 0 <= i < s.len() ==> (#[trigger] s[i]).1.wf() && s[i].1.scl() <= t,
    ensures
        amounts_val(s) % pow10((28 - t) as nat) == 0,
    decreases s.len(),
{
    lemma_pow10_pos((28 - t) as nat);
    if s.len() == 0 {
        vstd::arithmetic::div_mod::lemma_small_mod(0, pow10((28 - t) as nat) as nat);
    } else {
        let p = s.drop_last();
        assert forall|i: int| 0 <= i < p.len() implies (#[trigger] p[i]).1.wf() && p[i].1.scl()
            <= t by {
            assert(p[i] == s[i]);
        }
        lemma_amounts_mult(p, t);
        lemma_val_multiple(s.last().1, t);
        lemma_multiple_add(amounts_val(p), s.last().1.val(), (28 - t) as nat);
    }
}

/// One more line added to a prefix.
pub proof fn lemma_nets_prefix_step(lines: Seq<ElimLine>, k: int)
    requires
        0 <= k < lines.len(),
    ensures
        nets_val(lines.subrange(0, k + 1)) == nets_val(lines.subrange(0, k)) + line_net_val(lines[k]),
{
    assert(lines.subrange(0, k + 1).drop_last() =~= lines.subrange(0, k));
    assert(lines.subrange(0, k + 1).last() == lines[k]);
}

/// The first lines of a capital elimination zero the equity accounts.
proof fn lemma_neg_prefix(lines: Seq<ElimLine>, se: Seq<(String, Dec)>, k: int)
    requires
        0 <= k <= se.len() <= lines.len(),
        forall|i: int| 0 <= i < se.len() ==> (#[trigger] se[i]).1.wf(),
        forall|i: int|
            0 <= i < se.len() ==> signed_line_is(#[trigger] lines[i], se[i].0@, se[i].1.neg_val()),
    ensures
        nets_val(lines.subrange(0, k)) == -amounts_val(se.subrange(0, k)),
    decreases k,
{
    if k == 0 {
        assert(lines.subrange(0, 0) =~= Seq::<ElimLine>::empty());
        assert(se.subrange(0, 0) =~= Seq::<(String, Dec)>::empty());
    } else {
        lemma_neg_prefix(lines, se, k - 1);
        lemma_nets_prefix_step(lines, k - 1);
        assert(se.subrange(0, k).drop_last() =~= se.subrange(0, k - 1));
        assert(se.subrange(0, k).last() == se[k - 1]);
        let d = se[k - 1].1;
        d.lemma_negation();
        lemma_signed_line_net(lines[k - 1], se[k - 1].0@, d.neg_val());
    }
}

/// A capital elimination balances exactly under the exactness bounds.
proof fn lemma_capital_balanced(
    lines: Seq<ElimLine>,
    se: Seq<(String, Dec)>,
    investment: Dec,
    ownership: Dec,
    cfg: CapitalCfg,
    excess_account: Seq<char>,
    a: CapitalAmounts,
    pe: Dec,
)
    requires
        capital_exact_bounds(se, investment, ownership),
        capital_lines_are(lines, se, investment, cfg, excess_account, a),
        a.book.wf(),
        a.nci.wf(),
        a.excess.wf(),
        a.book.val() == -amounts_val(se),
        a.nci.scl() <= capital_scale(se, investment, ownership),
        a.excess.scl() <= capital_scale(se, investment, ownership),
        abs_int(a.nci.val()) <= capital_magnitude(se, investment),
        abs_int(pe.val()) <= capital_magnitude(se, investment),
        a.nci.val() + pe.val() == a.book.val(),
        a.excess.val() == investment.val() - pe.val(),
    ensures
        nets_exact(lines, capital_scale(se, investment, ownership)),
        nets_val(lines) == 0,
{
    let t = capital_scale(se, investment, ownership);
    let n = se.len() as int;
    let am = capital_magnitude(se, investment);
    let bound = max_mantissa() * pow10((28 - t) as nat);
    let pt = pow10((28 - t) as nat);
    lemma_pow10_pos((28 - t) as nat);
    lemma_amounts_basic(se);
    Dec::lemma_zero_one();
    investment.lemma_wf();
    assert forall|i: int| 0 <= i < se.len() implies (#[trigger] se[i]).1.wf() && se[i].1.scl()
        <= t by {
    }
    lemma_amounts_mult(se, t);
    lemma_mult(investment, t);
    lemma_mult(a.nci, t);
    lemma_mult(a.excess, t);
    lemma_fits_zero(t);
    let esum = amounts_val(se);
    // values of the lines' nets
    lemma_neg_prefix(lines, se, n);
    assert(se.subrange(0, n) =~= se);
    lemma_nets_prefix_step(lines, n);
    let has_nci = a.nci.val() != 0;
    let has_excess = a.excess.val() != 0;
    if has_nci {
        a.nci.lemma_negation();
        lemma_signed_line_net(lines[n + 1], cfg.nci_account@, a.nci.neg_val());
        lemma_nets_prefix_step(lines, n + 1);
    }
    if has_excess {
        lemma_signed_line_net(lines[lines.len() - 1], excess_account, a.excess);
        lemma_nets_prefix_step(lines, lines.len() - 1);
    }
    assert(lines.subrange(0, lines.len() as int) =~= lines);
    // fits of the individual nets
    assert forall|i: int| 0 <= i < lines.len() implies {
        &&& (#[trigger] lines[i]).dr.wf()
        &&& lines[i].cr.wf()
        &&& lines[i].dr.scl() <= t
        &&& lines[i].cr.scl() <= t
        &&& fits_at(line_net_val(lines[i]), t)
    } by {
        if i < n {
            let d = se[i].1;
            d.lemma_negation();
            lemma_signed_line_net(lines[i], se[i].0@, d.neg_val());
            lemma_mult(d, t);
            lemma_multiple_add(d.val(), d.val(), (28 - t) as nat);
            lemma_fits_from_bound(-d.val(), t);
        } else if i == n {
            lemma_multiple_add(investment.val(), investment.val(), (28 - t) as nat);
            lemma_fits_from_bound(-investment.val(), t);
        } else if has_nci && i == n + 1 {
            lemma_multiple_add(a.nci.val(), a.nci.val(), (28 - t) as nat);
            lemma_fits_from_bound(-a.nci.val(), t);
        } else {
            assert(has_excess && i == lines.len() - 1);
            lemma_fits_from_bound(a.excess.val(), t);
        }
    }
    // fits of the running sums
    assert forall|k: int| 0 <= k <= lines.len() implies fits_at(
        #[trigger] nets_val(lines.subrange(0, k)),
        t,
    ) by {
        if k <= n {
            lemma_neg_prefix(lines, se, k);
            lemma_amounts_prefix(se, k);
            let sub = se.subrange(0, k);
            assert forall|i: int| 0 <= i < sub.len() implies (#[trigger] sub[i]).1.wf() && sub[i].1.scl()
                <= t by {
                assert(sub[i] == se[i]);
            }
            lemma_amounts_mult(sub, t);
            lemma_multiple_add(amounts_val(sub), amounts_val(sub), (28 - t) as nat);
            lemma_fits_from_bound(-amounts_val(sub), t);
        } else if k == n + 1 {
            lemma_multiple_add(esum, esum, (28 - t) as nat);
            lemma_multiple_add(-esum, investment.val(), (28 - t) as nat);
            lemma_fits_from_bound(-esum - investment.val(), t);
        } else if has_nci && k == n + 2 {
            lemma_multiple_add(esum, esum, (28 - t) as nat);
            lemma_multiple_add(-esum, investment.val(), (28 - t) as nat);
            lemma_multiple_add(-esum - investment.val(), a.nci.val(), (28 - t) as nat);
            lemma_fits_from_bound(-esum - investment.val() - a.nci.val(), t);
        } else {
            assert(k == lines.len());
        }
    }
}

pub proof fn lemma_fold_amounts_prefix(s: Seq<(String, Dec)>, k: int)
    requires
        0 <= k <= s.len(),
        fold_amounts(s) is Some,
    ensures
        fold_amounts(s.subrange(0, k)) is Some,
    decreases s.len() - k,
{
    if k < s.len() {
        lemma_fold_amounts_prefix(s, k + 1);
        assert(s.subrange(0, k + 1).drop_last() =~= s.subrange(0, k));
    } else {
        assert(s.subrange(0, k) =~= s);
    }
}


// ----------------------------------------------------------------------------
// What a capital elimination books on each account
// ----------------------------------------------------------------------------
proof fn lemma_nets_for_none(lines: Seq<ElimLine>, k: Seq<char>)
    requires
        forall|j: int| 0 <= j < lines.len() ==> (#[trigger] lines[j]).account@ != k,
    ensures
        nets_val(lines_for(lines, k)) == 0,
    decreases lines.len(),
{
    reveal(Seq::filter);
    if lines.len() > 0 {
        let t = lines.drop_last();
        assert forall|j: int| 0 <= j < t.len() implies (#[trigger] t[j]).account@ != k by {
            assert(t[j] == lines[j]);
        }
        lemma_nets_for_none(t, k);
        assert(lines_for(lines, k) == lines_for(t, k));
    }
}

proof fn lemma_nets_for_one(lines: Seq<ElimLine>, k: Seq<char>, m: int)
    requires
        0 <= m < lines.len(),
        lines[m].account@ == k,
        forall|j: int| 0 <= j < lines.len() && j != m ==> (#[trigger] lines[j]).account@ != k,
    ensures
        nets_val(lines_for(lines, k)) == line_net_val(lines[m]),
    decreases lines.len(),
{
    reveal(Seq::filter);
    let t = lines.drop_last();
    assert forall|j: int| 0 <= j < t.len() && j != m implies (#[trigger] t[j]).account@ != k by {
        assert(t[j] == lines[j]);
    }
    if m == lines.len() - 1 {
        lemma_nets_for_none(t, k);
        let f = lines_for(t, k);
        assert(lines_for(lines, k) == f.push(lines.last()));
        assert(f.push(lines.last()).drop_last() =~= f);
    } else {
        assert(t[m] == lines[m]);
        lemma_nets_for_one(t, k, m);
        assert(lines.last().account@ != k);
        assert(lines_for(lines, k) == lines_for(t, k));
    }
}

/// The accounts of a subsidiary's equity are distinct from each other and from the
/// investment, minority-interest and goodwill accounts, which are distinct too.
pub open spec fn capital_accounts_distinct(se: Seq<(String, Dec)>, cfg: CapitalCfg) -> bool {
    &&& forall|i: int, j: int| 0 <= i < j < se.len() ==> (#[trigger] se[i]).0@ != (#[trigger] se[j]).0@
    &&& forall|i: int|
        0 <= i < se.len() ==> (#[trigger] se[i]).0@ != cfg.investment_account@ && se[i].0@ != cfg.nci_account@
            && se[i].0@ != cfg.goodwill_account@
    &&& cfg.investment_account@ != cfg.nci_account@
    &&& cfg.investment_account@ != cfg.goodwill_account@
    &&& cfg.nci_account@ != cfg.goodwill_account@
}

/// The capital elimination law: with exact amounts and distinct accounts, the entry
/// of `capital_elimination` is a balanced opening-free `capital` entry of its rule
/// that reverses each equity account of the subsidiary, credits the investment, and
/// books the minority interest and the goodwill as one line each (none when zero).
pub proof fn lemma_capital_elimination_law(
    sub_equity: Seq<(String, Dec)>,
    investment: Dec,
    ownership: Dec,
    cfg: CapitalCfg,
    rule: Seq<char>,
    e: ElimEntry,
)
    requires
        capital_amounts(sub_equity, investment, ownership) is Some,
        header_is(e, "capital"@, rule, false),
        capital_lines_are(
            e.lines@,
            sub_equity,
            investment,
            cfg,
            cfg.goodwill_account@,
            capital_amounts(sub_equity, investment, ownership)->0,
        ),
        capital_exact_bounds(sub_equity, investment, ownership) ==> balanced_exact(e),
        capital_exact_bounds(sub_equity, investment, ownership),
        capital_accounts_distinct(sub_equity, cfg),
    ensures
        balanced_exact(e),
        e.elim_type@ == "capital"@ && e.source_rule@ == rule && !e.is_opening,
        forall|i: int|
            0 <= i < sub_equity.len() ==> nets_val(lines_for(e.lines@, (#[trigger] sub_equity[i]).0@))
                == -sub_equity[i].1.val(),
        nets_val(lines_for(e.lines@, cfg.investment_account@)) == -investment.val(),
        ({
            let a = capital_amounts(sub_equity, investment, ownership)->0;
            let n = sub_equity.len() as int;
            &&& a.nci.val() == 0 ==> nets_val(lines_for(e.lines@, cfg.nci_account@)) == 0
            &&& a.nci.val() != 0 ==> signed_line_is(e.lines@[n + 1], cfg.nci_account@, a.nci.neg_val()) && nets_val(
                lines_for(e.lines@, cfg.nci_account@),
            ) == line_net_val(e.lines@[n + 1])
            &&& a.excess.val() == 0 ==> nets_val(lines_for(e.lines@, cfg.goodwill_account@)) == 0
            &&& a.excess.val() != 0 ==> signed_line_is(e.lines@[e.lines@.len() - 1], cfg.goodwill_account@, a.excess)
                && nets_val(lines_for(e.lines@, cfg.goodwill_account@)) == line_net_val(e.lines@[e.lines@.len() - 1])
        }),
{
    let a = capital_amounts(sub_equity, investment, ownership)->0;
    let lines = e.lines@;
    let n = sub_equity.len() as int;
    let has_nci = a.nci.val() != 0;
    let has_excess = a.excess.val() != 0;
    let gi: int = lines.len() - 1;
    // the account of each line
    assert forall|j: int| 0 <= j < n implies (#[trigger] lines[j]).account@ == sub_equity[j].0@ by {
        assert(signed_line_is(lines[j], sub_equity[j].0@, sub_equity[j].1.neg_val()));
    }
    assert(lines[n].account@ == cfg.investment_account@);
    // equity accounts
    assert forall|i: int| 0 <= i < n implies nets_val(lines_for(lines, (#[trigger] sub_equity[i]).0@))
        == -sub_equity[i].1.val() by {
        let k = sub_equity[i].0@;
        assert forall|j: int| 0 <= j < lines.len() && j != i implies (#[trigger] lines[j]).account@ != k by {
            if j < n {
                assert(lines[j].account@ == sub_equity[j].0@);
                if j < i {
                    assert(sub_equity[j].0@ != sub_equity[i].0@);
                } else {
                    assert(sub_equity[i].0@ != sub_equity[j].0@);
                }
            } else if j == n {
            } else if has_nci && j == n + 1 {
            } else {
                assert(has_excess && j == gi);
            }
        }
        lemma_nets_for_one(lines, k, i);
        assert(sub_equity[i].1.wf());
        sub_equity[i].1.lemma_negation();
        lemma_signed_line_net(lines[i], k, sub_equity[i].1.neg_val());
    }
    // the investment account
    assert forall|j: int| 0 <= j < lines.len() && j != n implies (#[trigger] lines[j]).account@ != cfg.investment_account@ by {
        if j < n {
            assert(lines[j].account@ == sub_equity[j].0@);
        } else if has_nci && j == n + 1 {
        } else {
            assert(has_excess && j == gi);
        }
    }
    lemma_nets_for_one(lines, cfg.investment_account@, n);
    Dec::lemma_zero_one();
    // the minority-interest account
    if has_nci {
        assert forall|j: int| 0 <= j < lines.len() && j != n + 1 implies (#[trigger] lines[j]).account@ != cfg.nci_account@ by {
            if j < n {
                assert(lines[j].account@ == sub_equity[j].0@);
            } else if j == n {
            } else {
                assert(has_excess && j == gi);
            }
        }
        lemma_nets_for_one(lines, cfg.nci_account@, n + 1);
    } else {
        assert forall|j: int| 0 <= j < lines.len() implies (#[trigger] lines[j]).account@ != cfg.nci_account@ by {
            if j < n {
                assert(lines[j].account@ == sub_equity[j].0@);
            } else if j == n {
            } else {
                assert(has_excess && j == gi);
            }
        }
        lemma_nets_for_none(lines, cfg.nci_account@);
    }
    // the goodwill account
    if has_excess {
        assert forall|j: int| 0 <= j < lines.len() && j != gi implies (#[trigger] lines[j]).account@ != cfg.goodwill_account@ by {
            if j < n {
                assert(lines[j].account@ == sub_equity[j].0@);
            } else if j == n {
            } else {
                assert(has_nci && j == n + 1);
            }
        }
        lemma_nets_for_one(lines, cfg.goodwill_account@, gi);
    } else {
        assert forall|j: int| 0 <= j < lines.len() implies (#[trigger] lines[j]).account@ != cfg.goodwill_account@ by {
            if j < n {
                assert(lines[j].account@ == sub_equity[j].0@);
            } else if j == n {
            } else {
                assert(has_nci && j == n + 1);
            }
        }
        lemma_nets_for_none(lines, cfg.goodwill_account@);
    }
}

} // verus!
