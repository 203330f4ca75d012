//! The consolidation of a whole scope, node by node from the deepest level up.
use vstd::prelude::*;
use crate::decimal::{Dec, dec_checked_add, dec_checked_sub, dec_checked_mul};
use crate::amount_map::{AmountMap, Entries, lookup, entries_view};
use crate::consol::types::{ScopeNode, ElimEntry, AccountType, WorksheetCell, account_type_of_text};
use crate::consol::engine::{CapitalCfg, IcMatch, InventoryProfit, FixedAssetProfit, capital_amounts, fold_amounts};
use crate::consol::aggregate::{Contribution, aggregate_spec, try_aggregate};
use crate::consol::worksheet::{try_worksheet, on_worksheet, consolidated_of};
use crate::consol::translate::{FxRates, translate_spec, try_translate_typed};
use crate::consol::run::{compute_subtrees, run_order, is_run_order};
use crate::formula::eval::{str_lookup, find_str};
use crate::text::{str_eq, lower_seq};
use crate::consol::plan::{
    push_all, kid_part, ic_part, inventory_part, fa_part, pickup_part, goodwill_part, step_part, elim_plan, adjust_plan,
    plan_gives, lemma_plan_append, subtrees_ok, kid_calls, ic_calls, inventory_calls, fa_calls, pickup_calls,
    goodwill_calls, step_calls, kid_ok, fa_item_ok, pickup_ok, step_ok,
};
use crate::order::views;

verus! {

/// A staged acquisition or a disposal recorded at a node.
#[derive(Clone, Debug)]
pub struct StepTxn {
    pub node: String,
    /// `step_acq` or `disposal`.
    pub txn_type: String,
    pub loses_control: bool,
    pub prev_carrying: Dec,
    pub prev_fair_value: Dec,
    pub proceeds: Dec,
    pub disposed_share: Dec,
    pub retained_fair_value: Dec,
    pub net_assets_share: Dec,
}

/// An elimination rule: its type, debit and credit accounts and code.
#[derive(Clone, Debug)]
pub struct ElimRule {
    pub elim_type: String,
    pub dr_account: String,
    pub cr_account: String,
    pub rule_code: String,
}

/// A rate of a currency into the group currency (`closing`, `average`, `historical`).
#[derive(Clone, Debug)]
pub struct FxRate {
    pub currency: String,
    pub rate_type: String,
    pub rate: Dec,
}

/// Everything one run reads.
pub struct ConsolInput {
    pub cfg: CapitalCfg,
    pub nodes: Vec<ScopeNode>,
    /// Parent's investment in a node (absent: zero).
    pub investment: Vec<(String, Dec)>,
    /// A node's functional currency (absent or empty: the group currency).
    pub currency: Vec<(String, String)>,
    /// Nodes combined under common control.
    pub common_control: Vec<String>,
    /// An entity's balances on group accounts (debit-positive).
    pub balances: Vec<(String, AmountMap)>,
    /// A group account's type, lower-cased.
    pub account_types: Vec<(String, String)>,
    /// The enabled rules, the first of each type applying.
    pub rules: Vec<ElimRule>,
    /// (kind: `debt`, `sales` or `dividend`; match).
    pub ic: Vec<(String, IcMatch)>,
    pub interim: Vec<InventoryProfit>,
    /// Goodwill impairment of a node this period.
    pub goodwill_impair: Vec<(String, Dec)>,
    pub step_txns: Vec<StepTxn>,
    pub fa_profit: Vec<FixedAssetProfit>,
    pub group_currency: String,
    pub cta_account: String,
    pub fx_rates: Vec<FxRate>,
}

/// What one node gives: its individual column, its consolidated amounts, and its
/// adjustment and elimination entries.
pub struct NodeResult {
    pub node: String,
    pub individual: AmountMap,
    pub consolidated: AmountMap,
    pub adjusts: Vec<ElimEntry>,
    pub elims: Vec<ElimEntry>,
}

/// Why a run stops.
#[derive(Debug)]
pub enum ConsolError {
    /// The scope has no node.
    EmptyScope,
    /// A leaf in a foreign currency lacks its closing, average or historical rate.
    MissingRates { node: String, currency: String },
    /// An amount of this node overflows.
    Overflow { node: String },
}

/// The first amount filed under a code.
pub open spec fn first_dec(m: Seq<(String, Dec)>, k: Seq<char>) -> Option<Dec>
    decreases m.len(),
{
    if m.len() == 0 {
        None
    } else if m[0].0@ == k {
        Some(m[0].1)
    } else {
        first_dec(m.subrange(1, m.len() as int), k)
    }
}

/// The first id filed under a key.
pub open spec fn first_dec_i64(m: Seq<(String, i64)>, k: Seq<char>) -> Option<i64>
    decreases m.len(),
{
    if m.len() == 0 {
        None
    } else if m[0].0@ == k {
        Some(m[0].1)
    } else {
        first_dec_i64(m.subrange(1, m.len() as int), k)
    }
}

/// The first balances filed under an entity.
pub open spec fn first_balance(m: Seq<(String, AmountMap)>, k: Seq<char>) -> Option<Entries>
    decreases m.len(),
{
    if m.len() == 0 {
        None
    } else if m[0].0@ == k {
        Some(m[0].1@)
    } else {
        first_balance(m.subrange(1, m.len() as int), k)
    }
}

/// The consolidated amounts of the latest result of a node.
pub open spec fn latest_result(rs: Seq<NodeResult>, k: Seq<char>) -> Option<Entries>
    decreases rs.len(),
{
    if rs.len() == 0 {
        None
    } else if rs.last().node@ == k {
        Some(rs.last().consolidated@)
    } else {
        latest_result(rs.drop_last(), k)
    }
}

/// The last node with a code.
pub open spec fn last_node(nodes: Seq<ScopeNode>, k: Seq<char>) -> Option<ScopeNode>
    decreases nodes.len(),
{
    if nodes.len() == 0 {
        None
    } else if nodes.last().code@ == k {
        Some(nodes.last())
    } else {
        last_node(nodes.drop_last(), k)
    }
}

/// The codes of the nodes whose parent is `code`, in scope order.
pub open spec fn kids_of(nodes: Seq<ScopeNode>, code: Seq<char>) -> Seq<Seq<char>>
    decreases nodes.len(),
{
    if nodes.len() == 0 {
        Seq::empty()
    } else {
        let rest = kids_of(nodes.drop_last(), code);
        if nodes.last().parent matches Some(p) && p@ == code {
            rest.push(nodes.last().code@)
        } else {
            rest
        }
    }
}

/// The entries or nothing.
pub open spec fn or_empty(m: Option<Entries>) -> Entries {
    match m {
        Some(e) => e,
        None => Seq::empty(),
    }
}

/// The contributions of a node's direct subordinates: each with its method and
/// ownership and the consolidated amounts it was given earlier (none yet: empty).
pub open spec fn contributions_are(cs: Seq<Contribution>, nodes: Seq<ScopeNode>, kids: Seq<Seq<char>>, earlier: Seq<NodeResult>) -> bool {
    &&& cs.len() == kids.len()
    &&& forall|i: int|
        0 <= i < cs.len() ==> {
            let n = last_node(nodes, kids[i])->0;
            &&& (#[trigger] cs[i]).entity@ == kids[i]
            &&& cs[i].method == n.method
            &&& cs[i].ownership == n.ownership
            &&& entries_view(cs[i].balances@) == or_empty(latest_result(earlier, kids[i]))
        }
}

/// The last amount given to a code by some lines.
pub open spec fn last_line(ls: Seq<(Seq<char>, Dec)>, k: Seq<char>) -> Option<Dec>
    decreases ls.len(),
{
    if ls.len() == 0 {
        None
    } else if ls.last().0 == k {
        Some(ls.last().1)
    } else {
        last_line(ls.drop_last(), k)
    }
}

/// The type of a group account for translation: its recorded type, an asset when
/// it has none or an unknown one.
pub open spec fn type_of_account(types: Seq<(String, String)>, a: Seq<char>) -> AccountType {
    match str_lookup(types, a) {
        Some(t) => match account_type_of_text(lower_seq(t)) {
            Some(x) => x,
            None => AccountType::Asset,
        },
        None => AccountType::Asset,
    }
}

/// The first rate of a currency and a rate type.
pub open spec fn rate_lookup(fx: Seq<FxRate>, c: Seq<char>, t: Seq<char>) -> Option<Dec>
    decreases fx.len(),
{
    if fx.len() == 0 {
        None
    } else if fx[0].currency@ == c && fx[0].rate_type@ == t {
        Some(fx[0].rate)
    } else {
        rate_lookup(fx.subrange(1, fx.len() as int), c, t)
    }
}

/// The foreign functional currency of a node, when it has one.
pub open spec fn foreign_currency(inp: ConsolInput, code: Seq<char>) -> Option<Seq<char>> {
    match str_lookup(inp.currency@, code) {
        Some(c) => if c.len() > 0 && c != inp.group_currency@ {
            Some(c)
        } else {
            None
        },
        None => None,
    }
}

/// A currency's three rates are all there.
pub open spec fn has_rates(fx: Seq<FxRate>, c: Seq<char>) -> bool {
    &&& rate_lookup(fx, c, "closing"@) is Some
    &&& rate_lookup(fx, c, "average"@) is Some
    &&& rate_lookup(fx, c, "historical"@) is Some
}

/// What a run gives for one node, given the results before it.
pub open spec fn node_result_ok(inp: ConsolInput, earlier: Seq<NodeResult>, nd: ScopeNode, r: NodeResult) -> bool {
    &&& r.node@ == nd.code@
    &&& if nd.is_leaf {
        let bal = or_empty(first_balance(inp.balances@, nd.code@));
        &&& r.adjusts@.len() == 0
        &&& r.elims@.len() == 0
        &&& r.consolidated@ == r.individual@
        &&& match foreign_currency(inp, nd.code@) {
            None => r.individual@ == bal,
            Some(c) => has_rates(inp.fx_rates@, c) && exists|bs: Seq<(String, Dec)>|
                #![trigger entries_view(bs)]
                entries_view(bs) == bal && forall|k: Seq<char>|
                    #![trigger lookup(r.individual@, k)]
                    lookup(r.individual@, k) == last_line(
                        translate_spec(
                            bs,
                            bs.map_values(|e: (String, Dec)| type_of_account(inp.account_types@, e.0@)),
                            FxRates {
                                closing: rate_lookup(inp.fx_rates@, c, "closing"@)->0,
                                average: rate_lookup(inp.fx_rates@, c, "average"@)->0,
                                historical: rate_lookup(inp.fx_rates@, c, "historical"@)->0,
                            },
                            inp.cta_account@,
                        )->0,
                        k,
                    ),
        }
    } else {
        &&& exists|cs: Seq<Contribution>|
            contributions_are(cs, inp.nodes@, kids_of(inp.nodes@, nd.code@), earlier) && r.individual@
                == aggregate_spec(cs)->0
        &&& plan_gives(elim_plan(inp, earlier, nd), inp.cfg, r.elims@)
        &&& plan_gives(adjust_plan(inp, earlier, nd), inp.cfg, r.adjusts@)
        &&& forall|k: Seq<char>|
            #![trigger lookup(r.consolidated@, k)]
            lookup(r.consolidated@, k) == if on_worksheet(r.individual@, r.adjusts@, r.elims@, k) {
                consolidated_of(r.individual@, r.adjusts@, r.elims@, k)
            } else {
                None
            }
    }
}

/// Translating a leaf overflows: it has a foreign currency with all its rates, and
/// translating its balances at those rates overflows.
pub open spec fn leaf_overflows(inp: ConsolInput, nd: ScopeNode) -> bool {
    let bal = or_empty(first_balance(inp.balances@, nd.code@));
    match foreign_currency(inp, nd.code@) {
        Some(c) => has_rates(inp.fx_rates@, c) && exists|bs: Seq<(String, Dec)>|
            #![trigger entries_view(bs)]
            entries_view(bs) == bal && translate_spec(
                bs,
                bs.map_values(|e: (String, Dec)| type_of_account(inp.account_types@, e.0@)),
                FxRates {
                    closing: rate_lookup(inp.fx_rates@, c, "closing"@)->0,
                    average: rate_lookup(inp.fx_rates@, c, "average"@)->0,
                    historical: rate_lookup(inp.fx_rates@, c, "historical"@)->0,
                },
                inp.cta_account@,
            ) is None,
        None => false,
    }
}

/// Consolidating a non-leaf node overflows, given the results before it: the
/// aggregate of its direct subordinates, a subordinate's capital elimination or
/// minority share, an unrealised fixed-asset profit, an equity pick-up, a staged
/// transaction, or a consolidated worksheet amount does not fit.
pub open spec fn merge_overflows(inp: ConsolInput, earlier: Seq<NodeResult>, nd: ScopeNode) -> bool {
    let kv = kids_of(inp.nodes@, nd.code@);
    ||| exists|cs: Seq<Contribution>| #[trigger] contributions_are(cs, inp.nodes@, kv, earlier) && aggregate_spec(cs) is None
    ||| exists|j: int| 0 <= j < kv.len() && !#[trigger] kid_ok(inp, earlier, kv[j])
    ||| exists|j: int| 0 <= j < inp.fa_profit@.len() && !#[trigger] fa_item_ok(inp, nd.code@, kv, inp.fa_profit@[j])
    ||| exists|j: int| 0 <= j < kv.len() && !#[trigger] pickup_ok(inp, earlier, kv[j])
    ||| exists|j: int| 0 <= j < inp.step_txns@.len() && !#[trigger] step_ok(inp, nd.code@, inp.step_txns@[j])
    ||| exists|cs: Seq<Contribution>, adj: Seq<ElimEntry>, elim: Seq<ElimEntry>, k: Seq<char>|
        #[trigger] contributions_are(cs, inp.nodes@, kv, earlier) && #[trigger] plan_gives(
            elim_plan(inp, earlier, nd),
            inp.cfg,
            elim,
        ) && #[trigger] plan_gives(adjust_plan(inp, earlier, nd), inp.cfg, adj) && aggregate_spec(cs) is Some
            && on_worksheet(aggregate_spec(cs)->0, adj, elim, k) && #[trigger] consolidated_of(aggregate_spec(cs)->0, adj, elim, k)
            is None
}

/// Consolidating a node overflows, given the results before it.
pub open spec fn node_overflows(inp: ConsolInput, earlier: Seq<NodeResult>, nd: ScopeNode) -> bool {
    if nd.is_leaf {
        leaf_overflows(inp, nd)
    } else {
        merge_overflows(inp, earlier, nd)
    }
}

pub(crate) fn find_dec(m: &Vec<(String, Dec)>, k: &str) -> (r: Option<Dec>)
    ensures
        r == first_dec(m@, k@),
{
    let mut i: usize = 0;
    proof {
        assert(m@.subrange(0, m@.len() as int) =~= m@);
    }
    while i < m.len()
        invariant
            i <= m@.len(),
            first_dec(m@, k@) == first_dec(m@.subrange(i as int, m@.len() as int), k@),
        decreases m@.len() - i,
    {
        let ghost rest = m@.subrange(i as int, m@.len() as int);
        proof {
            assert(rest[0] == m@[i as int]);
            assert(rest.subrange(1, rest.len() as int) =~= m@.subrange(i + 1, m@.len() as int));
        }
        if str_eq(m[i].0.as_str(), k) {
            return Some(m[i].1);
        }
        i = i + 1;
    }
    proof {
        assert(m@.subrange(i as int, m@.len() as int) =~= Seq::<(String, Dec)>::empty());
    }
    None
}

fn find_balance<'b>(m: &'b Vec<(String, AmountMap)>, k: &str) -> (r: Option<&'b AmountMap>)
    ensures
        match first_balance(m@, k@) {
            Some(e) => r matches Some(x) && x@ == e,
            None => r is None,
        },
{
    let mut i: usize = 0;
    proof {
        assert(m@.subrange(0, m@.len() as int) =~= m@);
    }
    while i < m.len()
        invariant
            i <= m@.len(),
            first_balance(m@, k@) == first_balance(m@.subrange(i as int, m@.len() as int), k@),
        decreases m@.len() - i,
    {
        let ghost rest = m@.subrange(i as int, m@.len() as int);
        proof {
            assert(rest[0] == m@[i as int]);
            assert(rest.subrange(1, rest.len() as int) =~= m@.subrange(i + 1, m@.len() as int));
        }
        if str_eq(m[i].0.as_str(), k) {
            return Some(&m[i].1);
        }
        i = i + 1;
    }
    proof {
        assert(m@.subrange(i as int, m@.len() as int) =~= Seq::<(String, AmountMap)>::empty());
    }
    None
}

pub(crate) fn find_result<'b>(rs: &'b Vec<NodeResult>, k: &str) -> (r: Option<&'b AmountMap>)
    ensures
        match latest_result(rs@, k@) {
            Some(e) => r matches Some(x) && x@ == e,
            None => r is None,
        },
{
    let mut i: usize = rs.len();
    proof {
        assert(rs@.subrange(0, rs@.len() as int) =~= rs@);
    }
    while i > 0
        invariant
            i <= rs@.len(),
            latest_result(rs@, k@) == latest_result(rs@.subrange(0, i as int), k@),
        decreases i,
    {
        let ghost pre = rs@.subrange(0, i as int);
        proof {
            assert(pre.last() == rs@[i - 1]);
            assert(pre.drop_last() =~= rs@.subrange(0, i - 1));
        }
        if str_eq(rs[i - 1].node.as_str(), k) {
            return Some(&rs[i - 1].consolidated);
        }
        i = i - 1;
    }
    None
}

pub(crate) fn find_node<'b>(nodes: &'b Vec<ScopeNode>, k: &str) -> (r: Option<&'b ScopeNode>)
    ensures
        match last_node(nodes@, k@) {
            Some(n) => r == Some(&n),
            None => r is None,
        },
{
    let mut i: usize = nodes.len();
    proof {
        assert(nodes@.subrange(0, nodes@.len() as int) =~= nodes@);
    }
    while i > 0
        invariant
            i <= nodes@.len(),
            last_node(nodes@, k@) == last_node(nodes@.subrange(0, i as int), k@),
        decreases i,
    {
        let ghost pre = nodes@.subrange(0, i as int);
        proof {
            assert(pre.last() == nodes@[i - 1]);
            assert(pre.drop_last() =~= nodes@.subrange(0, i - 1));
        }
        if str_eq(nodes[i - 1].code.as_str(), k) {
            return Some(&nodes[i - 1]);
        }
        i = i - 1;
    }
    None
}

/// The codes of the direct subordinates of a node.
fn kids(nodes: &Vec<ScopeNode>, code: &str) -> (r: Vec<String>)
    ensures
        r@.map_values(|s: String| s@) == kids_of(nodes@, code@),
{
    let mut out: Vec<String> = Vec::new();
    let mut i: usize = 0;
    proof {
        assert(nodes@.subrange(0, 0) =~= Seq::<ScopeNode>::empty());
        assert(out@.map_values(|s: String| s@) =~= Seq::<Seq<char>>::empty());
    }
    while i < nodes.len()
        invariant
            i <= nodes@.len(),
            out@.map_values(|s: String| s@) == kids_of(nodes@.subrange(0, i as int), code@),
        decreases nodes@.len() - i,
    {
        let ghost pre = nodes@.subrange(0, i + 1);
        proof {
            assert(pre.drop_last() =~= nodes@.subrange(0, i as int));
            assert(pre.last() == nodes@[i as int]);
        }
        let is_kid = match &nodes[i].parent {
            Some(p) => str_eq(p.as_str(), code),
            None => false,
        };
        let ghost before = out@;
        if is_kid {
            out.push(nodes[i].code.clone());
            proof {
                assert(out@.map_values(|s: String| s@) =~= before.map_values(|s: String| s@).push(nodes@[i as int].code@));
            }
        }
        i = i + 1;
    }
    proof {
        assert(nodes@.subrange(0, nodes@.len() as int) =~= nodes@);
    }
    out
}

fn find_rate(fx: &Vec<FxRate>, c: &str, t: &str) -> (r: Option<Dec>)
    ensures
        r == rate_lookup(fx@, c@, t@),
{
    let mut i: usize = 0;
    proof {
        assert(fx@.subrange(0, fx@.len() as int) =~= fx@);
    }
    while i < fx.len()
        invariant
            i <= fx@.len(),
            rate_lookup(fx@, c@, t@) == rate_lookup(fx@.subrange(i as int, fx@.len() as int), c@, t@),
        decreases fx@.len() - i,
    {
        let ghost rest = fx@.subrange(i as int, fx@.len() as int);
        proof {
            assert(rest[0] == fx@[i as int]);
            assert(rest.subrange(1, rest.len() as int) =~= fx@.subrange(i + 1, fx@.len() as int));
        }
        if str_eq(fx[i].currency.as_str(), c) && str_eq(fx[i].rate_type.as_str(), t) {
            return Some(fx[i].rate);
        }
        i = i + 1;
    }
    proof {
        assert(fx@.subrange(i as int, fx@.len() as int) =~= Seq::<FxRate>::empty());
    }
    None
}

/// The map holding, for each code, the last amount the lines give it.
fn map_of_lines(ls: &Vec<(String, Dec)>) -> (r: AmountMap)
    ensures
        forall|k: Seq<char>| #![trigger lookup(r@, k)] lookup(r@, k) == last_line(entries_view(ls@), k),
{
    let mut m = AmountMap::new();
    let mut i: usize = 0;
    proof {
        assert(entries_view(ls@).subrange(0, 0) =~= Seq::<(Seq<char>, Dec)>::empty());
    }
    while i < ls.len()
        invariant
            i <= ls@.len(),
            forall|k: Seq<char>|
                #![trigger lookup(m@, k)]
                lookup(m@, k) == last_line(entries_view(ls@).subrange(0, i as int), k),
        decreases ls@.len() - i,
    {
        let ghost before = m@;
        m.insert(ls[i].0.as_str(), ls[i].1);
        proof {
            let e = entries_view(ls@);
            let nx = e.subrange(0, i + 1);
            assert(nx.drop_last() =~= e.subrange(0, i as int));
            assert(nx.last() == (ls@[i as int].0@, ls@[i as int].1));
            assert forall|k: Seq<char>| #![trigger lookup(m@, k)] lookup(m@, k) == last_line(nx, k) by {
                if k != ls@[i as int].0@ {
                    assert(lookup(m@, k) == lookup(before, k));
                }
            }
        }
        i = i + 1;
    }
    proof {
        assert(entries_view(ls@).subrange(0, ls@.len() as int) =~= entries_view(ls@));
    }
    m
}

/// The type of a group account for translation (see `type_of_account`).
fn account_type(types: &Vec<(String, String)>, a: &str) -> (r: AccountType)
    ensures
        r == type_of_account(types@, a@),
{
    match find_str(types, a) {
        Some(t) => match AccountType::parse(t.as_str()) {
            Some(x) => x,
            None => AccountType::Asset,
        },
        None => AccountType::Asset,
    }
}

/// A leaf's result: its balances, translated into the group currency when its
/// functional currency differs.
fn leaf_result(inp: &ConsolInput, nd: &ScopeNode) -> (r: Result<NodeResult, ConsolError>)
    requires
        nd.is_leaf,
    ensures
        match r {
            Ok(x) => node_result_ok(*inp, Seq::empty(), *nd, x),
            Err(ConsolError::MissingRates { node, currency }) => node@ == nd.code@ && foreign_currency(*inp, nd.code@)
                == Some(currency@) && !has_rates(inp.fx_rates@, currency@),
            Err(ConsolError::Overflow { node }) => node@ == nd.code@ && leaf_overflows(*inp, *nd),
            Err(ConsolError::EmptyScope) => false,
        },
{
    let bal = match find_balance(&inp.balances, nd.code.as_str()) {
        Some(b) => b.copy(),
        None => AmountMap::new(),
    };
    let ccy = match find_str(&inp.currency, nd.code.as_str()) {
        Some(c) => c.clone(),
        None => String::new(),
    };
    if ccy.as_str().is_empty() || str_eq(ccy.as_str(), inp.group_currency.as_str()) {
        let cons = bal.copy();
        return Ok(NodeResult { node: nd.code.clone(), individual: bal, consolidated: cons, adjusts: Vec::new(), elims: Vec::new() });
    }
    let cl = find_rate(&inp.fx_rates, ccy.as_str(), "closing");
    let av = find_rate(&inp.fx_rates, ccy.as_str(), "average");
    let hi = find_rate(&inp.fx_rates, ccy.as_str(), "historical");
    let rates = match (cl, av, hi) {
        (Some(c), Some(a), Some(h)) => FxRates { closing: c, average: a, historical: h },
        _ => {
            return Err(ConsolError::MissingRates { node: nd.code.clone(), currency: ccy });
        },
    };
    let src = bal.to_pairs();
    let mut types: Vec<AccountType> = Vec::new();
    let mut i: usize = 0;
    while i < src.len()
        invariant
            i <= src@.len(),
            types@.len() == i,
            forall|j: int| 0 <= j < i ==> #[trigger] types@[j] == type_of_account(inp.account_types@, src@[j].0@),
        decreases src@.len() - i,
    {
        types.push(account_type(&inp.account_types, src[i].0.as_str()));
        i = i + 1;
    }
    proof {
        assert(types@ =~= src@.map_values(|e: (String, Dec)| type_of_account(inp.account_types@, e.0@)));
    }
    let translated = match try_translate_typed(&src, &types, rates, inp.cta_account.as_str()) {
        Some(t) => t,
        None => {
            proof {
                assert(entries_view(src@) == or_empty(first_balance(inp.balances@, nd.code@)));
                assert(leaf_overflows(*inp, *nd));
            }
            return Err(ConsolError::Overflow { node: nd.code.clone() });
        },
    };
    let ind = map_of_lines(&translated);
    let cons = ind.copy();
    Ok(NodeResult { node: nd.code.clone(), individual: ind, consolidated: cons, adjusts: Vec::new(), elims: Vec::new() })
}

/// Whether the amounts of a capital elimination can be computed (no overflow).
pub fn capital_ok(sub_equity: &Vec<(String, Dec)>, investment: Dec, ownership: Dec) -> (r: bool)
    ensures
        r == (capital_amounts(sub_equity@, investment, ownership) is Some),
{
    let mut acc = Dec::zero();
    let mut i: usize = 0;
    proof {
        assert(sub_equity@.subrange(0, 0) =~= Seq::<(String, Dec)>::empty());
    }
    while i < sub_equity.len()
        invariant
            i <= sub_equity@.len(),
            fold_amounts(sub_equity@.subrange(0, i as int)) == Some(acc),
        decreases sub_equity@.len() - i,
    {
        proof {
            let p = sub_equity@.subrange(0, i + 1);
            assert(p.drop_last() =~= sub_equity@.subrange(0, i as int));
            assert(p.last() == sub_equity@[i as int]);
        }
        acc = match dec_checked_add(acc, sub_equity[i].1) {
            Some(t) => t,
            None => {
                proof {
                    if fold_amounts(sub_equity@) is Some {
                        crate::consol::engine::lemma_fold_amounts_prefix(sub_equity@, i + 1);
                    }
                }
                return false;
            },
        };
        i = i + 1;
    }
    proof {
        assert(sub_equity@.subrange(0, sub_equity@.len() as int) =~= sub_equity@);
    }
    let book = acc.neg();
    let q = match dec_checked_sub(Dec::one(), ownership) {
        Some(q) => q,
        None => {
            return false;
        },
    };
    if dec_checked_mul(q, book).is_none() {
        return false;
    }
    let pe = match dec_checked_mul(ownership, book) {
        Some(x) => x,
        None => {
            return false;
        },
    };
    dec_checked_sub(investment, pe).is_some()
}

pub(crate) fn overflow(nd: &ScopeNode) -> (r: ConsolError)
    ensures
        r matches ConsolError::Overflow { node } && node@ == nd.code@,
{
    ConsolError::Overflow { node: nd.code.clone() }
}

proof fn lemma_kids_found(nodes: Seq<ScopeNode>, code: Seq<char>, i: int)
    requires
        0 <= i < kids_of(nodes, code).len(),
    ensures
        last_node(nodes, kids_of(nodes, code)[i]) is Some,
    decreases nodes.len(),
{
    let rest = kids_of(nodes.drop_last(), code);
    if i < rest.len() {
        lemma_kids_found(nodes.drop_last(), code, i);
    }
}

/// The result of a consolidation node: the aggregate of its direct subordinates,
/// its adjustments (equity pick-up, goodwill impairment, staged acquisitions and
/// disposals), its eliminations (capital, minority share, intercompany items,
/// unrealised profits) and the worksheet they make.
fn merge_node(
    inp: &ConsolInput,
    subtrees: &Vec<(String, Vec<String>)>,
    earlier: &Vec<NodeResult>,
    nd: &ScopeNode,
) -> (r: Result<NodeResult, ConsolError>)
    requires
        !nd.is_leaf,
        subtrees_ok(inp.nodes@, subtrees@),
    ensures
        match r {
            Ok(x) => node_result_ok(*inp, earlier@, *nd, x),
            Err(e) => e matches ConsolError::Overflow { node } && node@ == nd.code@,
        },
        r is Err ==> merge_overflows(*inp, earlier@, *nd),
{
    let code = nd.code.as_str();
    let kid_codes = kids(&inp.nodes, code);
    let ghost kv = kids_of(inp.nodes@, code@);
    proof {
        assert(kid_codes@.map_values(|s: String| s@).len() == kv.len());
    }
    // contributions of the direct subordinates
    let mut cs: Vec<Contribution> = Vec::new();
    let mut i: usize = 0;
    while i < kid_codes.len()
        invariant
            i <= kid_codes@.len(),
            kv == kids_of(inp.nodes@, code@),
            kid_codes@.map_values(|s: String| s@) == kv,
            contributions_are(cs@, inp.nodes@, kv.subrange(0, i as int), earlier@),
        decreases kid_codes@.len() - i,
    {
        let k = kid_codes[i].as_str();
        proof {
            assert(kv[i as int] == kid_codes@[i as int]@);
            lemma_kids_found(inp.nodes@, code@, i as int);
        }
        let kn = match find_node(&inp.nodes, k) {
            Some(n) => n,
            None => {
                proof {
                    assert(false);
                }
                return Err(overflow(nd));
            },
        };
        let balances = match find_result(earlier, k) {
            Some(m) => m.to_pairs(),
            None => Vec::new(),
        };
        proof {
            if latest_result(earlier@, k@) is None {
                assert(entries_view(balances@) =~= Seq::<(Seq<char>, Dec)>::empty());
            }
        }
        let ghost before = cs@;
        cs.push(Contribution { entity: kid_codes[i].clone(), method: kn.method, ownership: kn.ownership, balances });
        proof {
            let ks = kv.subrange(0, i + 1);
            assert forall|j: int| 0 <= j < cs@.len() implies {
                let n = last_node(inp.nodes@, ks[j])->0;
                &&& (#[trigger] cs@[j]).entity@ == ks[j]
                &&& cs@[j].method == n.method
                &&& cs@[j].ownership == n.ownership
                &&& entries_view(cs@[j].balances@) == or_empty(latest_result(earlier@, ks[j]))
            } by {
                if j < i {
                    assert(cs@[j] == before[j]);
                    assert(ks[j] == kv.subrange(0, i as int)[j]);
                }
            }
        }
        i = i + 1;
    }
    proof {
        assert(kv.subrange(0, kid_codes@.len() as int) =~= kv);
    }
    let individual = match try_aggregate(cs.as_slice()) {
        Some(m) => m,
        None => {
            return Err(overflow(nd));
        },
    };
    // eliminations: subsidiaries, intercompany items, unrealised profits
    proof {
        assert(views(kid_codes@) == kv);
    }
    let mut elims = match kid_part(inp, earlier, &kid_codes, nd) {
        Ok(v) => v,
        Err(e) => {
            return Err(e);
        },
    };
    let ic = ic_part(inp, subtrees, &kid_codes, code);
    let inv = inventory_part(inp, subtrees, &kid_codes, code);
    let fa = match fa_part(inp, subtrees, &kid_codes, code) {
        Ok(v) => v,
        Err(_) => {
            return Err(overflow(nd));
        },
    };
    proof {
        lemma_plan_append(kid_calls(*inp, earlier@, kv), ic_calls(*inp, code@, kv, inp.ic@), inp.cfg, elims@, ic@);
        lemma_plan_append(
            kid_calls(*inp, earlier@, kv) + ic_calls(*inp, code@, kv, inp.ic@),
            inventory_calls(*inp, code@, kv, inp.interim@),
            inp.cfg,
            elims@ + ic@,
            inv@,
        );
        lemma_plan_append(
            kid_calls(*inp, earlier@, kv) + ic_calls(*inp, code@, kv, inp.ic@) + inventory_calls(*inp, code@, kv, inp.interim@),
            fa_calls(*inp, code@, kv, inp.fa_profit@),
            inp.cfg,
            elims@ + ic@ + inv@,
            fa@,
        );
    }
    push_all(&mut elims, ic);
    push_all(&mut elims, inv);
    push_all(&mut elims, fa);
    // adjustments: equity pick-up, goodwill impairment, staged acquisitions and disposals
    let mut adjusts = match pickup_part(inp, earlier, &kid_codes) {
        Ok(v) => v,
        Err(_) => {
            return Err(overflow(nd));
        },
    };
    let gw = goodwill_part(inp, code);
    let st = match step_part(inp, code) {
        Ok(v) => v,
        Err(_) => {
            return Err(overflow(nd));
        },
    };
    proof {
        lemma_plan_append(pickup_calls(*inp, earlier@, kv), goodwill_calls(*inp, code@), inp.cfg, adjusts@, gw@);
        lemma_plan_append(
            pickup_calls(*inp, earlier@, kv) + goodwill_calls(*inp, code@),
            step_calls(*inp, code@, inp.step_txns@),
            inp.cfg,
            adjusts@ + gw@,
            st@,
        );
    }
    push_all(&mut adjusts, gw);
    push_all(&mut adjusts, st);
    proof {
        assert(elim_plan(*inp, earlier@, *nd) == kid_calls(*inp, earlier@, kv) + ic_calls(*inp, code@, kv, inp.ic@)
            + inventory_calls(*inp, code@, kv, inp.interim@) + fa_calls(*inp, code@, kv, inp.fa_profit@));
        assert(adjust_plan(*inp, earlier@, *nd) == pickup_calls(*inp, earlier@, kv) + goodwill_calls(*inp, code@)
            + step_calls(*inp, code@, inp.step_txns@));
    }
    // the worksheet
    let cells = match try_worksheet(code, &individual, adjusts.as_slice(), elims.as_slice()) {
        Some(c) => c,
        None => {
            return Err(overflow(nd));
        },
    };
    let consolidated = map_of_cells(&cells);
    proof {
        assert forall|k: Seq<char>| #![trigger lookup(consolidated@, k)] lookup(consolidated@, k) == if on_worksheet(individual@, adjusts@, elims@, k) {
            consolidated_of(individual@, adjusts@, elims@, k)
        } else {
            None
        } by {
            if on_worksheet(individual@, adjusts@, elims@, k) {
                let j = choose|j: int| 0 <= j < cells@.len() && (#[trigger] cells@[j]).account@ == k;
                assert(lookup(consolidated@, cells@[j].account@) == Some(cells@[j].consolidated));
            } else {
                if lookup(consolidated@, k) is Some {
                    let j = choose|j: int| 0 <= j < cells@.len() && (#[trigger] cells@[j]).account@ == k;
                }
            }
        }
    }
    Ok(NodeResult { node: nd.code.clone(), individual, consolidated, adjusts, elims })
}

/// The consolidated amount of each cell, by account.
fn map_of_cells(cells: &Vec<WorksheetCell>) -> (r: AmountMap)
    requires
        forall|i: int, j: int| 0 <= i < j < cells@.len() ==> crate::text::seq_lt(#[trigger] cells@[i].account@, #[trigger] cells@[j].account@),
    ensures
        forall|j: int| 0 <= j < cells@.len() ==> lookup(r@, (#[trigger] cells@[j]).account@) == Some(cells@[j].consolidated),
        forall|k: Seq<char>|
            #![trigger lookup(r@, k)]
            lookup(r@, k) is Some ==> exists|j: int| 0 <= j < cells@.len() && (#[trigger] cells@[j]).account@ == k,
{
    let mut m = AmountMap::new();
    let mut i: usize = 0;
    while i < cells.len()
        invariant
            i <= cells@.len(),
            forall|i2: int, j: int| 0 <= i2 < j < cells@.len() ==> crate::text::seq_lt(#[trigger] cells@[i2].account@, #[trigger] cells@[j].account@),
            forall|j: int| 0 <= j < i ==> lookup(m@, (#[trigger] cells@[j]).account@) == Some(cells@[j].consolidated),
            forall|k: Seq<char>|
                #![trigger lookup(m@, k)]
                lookup(m@, k) is Some ==> exists|j: int| 0 <= j < i && (#[trigger] cells@[j]).account@ == k,
        decreases cells@.len() - i,
    {
        let ghost before = m@;
        m.insert(cells[i].account.as_str(), cells[i].consolidated);
        proof {
            assert forall|j: int| 0 <= j < i + 1 implies lookup(m@, (#[trigger] cells@[j]).account@) == Some(cells@[j].consolidated) by {
                if j < i {
                    assert(crate::text::seq_lt(cells@[j].account@, cells@[i as int].account@));
                    crate::text::lemma_seq_lt_irrefl(cells@[j].account@);
                    assert(cells@[j].account@ != cells@[i as int].account@);
                    assert(lookup(m@, cells@[j].account@) == lookup(before, cells@[j].account@));
                }
            }
            assert forall|k: Seq<char>|
                #![trigger lookup(m@, k)]
                lookup(m@, k) is Some implies exists|j: int| 0 <= j < i + 1 && (#[trigger] cells@[j]).account@ == k by {
                if k == cells@[i as int].account@ {
                    assert(cells@[i as int].account@ == k);
                } else {
                    assert(lookup(m@, k) == lookup(before, k));
                }
            }
        }
        i = i + 1;
    }
    m
}

/// Consolidates a scope: the nodes from the deepest level up (scope order among
/// one level), each leaf with its (translated) balances, each other node with the
/// aggregate of its direct subordinates' results and its own adjustments and
/// eliminations, its consolidated amounts read off its worksheet.
pub fn consolidate(inp: &ConsolInput) -> (r: Result<Vec<NodeResult>, ConsolError>)
    ensures
        (inp.nodes@.len() == 0) <==> (r matches Err(ConsolError::EmptyScope)),
        r matches Ok(rs) ==> exists|o: Seq<usize>|
            #![trigger is_run_order(inp.nodes@, o)]
            is_run_order(inp.nodes@, o) && rs@.len() == o.len() && forall|j: int|
                0 <= j < rs@.len() ==> node_result_ok(
                    *inp,
                    rs@.subrange(0, j),
                    inp.nodes@[o[j] as int],
                    #[trigger] rs@[j],
                ),
        r matches Err(ConsolError::MissingRates { node, currency }) ==> exists|j: int|
            0 <= j < inp.nodes@.len() && (#[trigger] inp.nodes@[j]).is_leaf && inp.nodes@[j].code@ == node@
                && foreign_currency(*inp, node@) == Some(currency@) && !has_rates(inp.fx_rates@, currency@),
        r matches Err(ConsolError::Overflow { node }) ==> exists|j: int|
            0 <= j < inp.nodes@.len() && (#[trigger] inp.nodes@[j]).code@ == node@,
        r matches Err(ConsolError::Overflow { node }) ==> exists|o: Seq<usize>, rs: Seq<NodeResult>|
            #![trigger is_run_order(inp.nodes@, o), rs.len()]
            is_run_order(inp.nodes@, o) && rs.len() < o.len() && (forall|j: int|
                0 <= j < rs.len() ==> node_result_ok(*inp, rs.subrange(0, j), inp.nodes@[o[j] as int], #[trigger] rs[j]))
                && inp.nodes@[o[rs.len() as int] as int].code@ == node@ && node_overflows(
                *inp,
                rs,
                inp.nodes@[o[rs.len() as int] as int],
            ),
{
    if inp.nodes.len() == 0 {
        return Err(ConsolError::EmptyScope);
    }
    let subtrees = compute_subtrees(&inp.nodes);
    let order = run_order(&inp.nodes);
    let mut results: Vec<NodeResult> = Vec::new();
    let mut i: usize = 0;
    while i < order.len()
        invariant
            inp.nodes@.len() > 0,
            is_run_order(inp.nodes@, order@),
            subtrees_ok(inp.nodes@, subtrees@),
            i <= order@.len(),
            results@.len() == i,
            forall|j: int|
                0 <= j < i ==> node_result_ok(
                    *inp,
                    results@.subrange(0, j),
                    inp.nodes@[order@[j] as int],
                    #[trigger] results@[j],
                ),
        decreases order@.len() - i,
    {
        let idx = order[i];
        proof {
            assert(idx < inp.nodes@.len());
        }
        let nd = &inp.nodes[idx];
        let res = if nd.is_leaf {
            match leaf_result(inp, nd) {
                Ok(x) => x,
                Err(e) => {
                    proof {
                        assert(results@.len() == i && results@.len() < order@.len());
                        assert(inp.nodes@[order@[results@.len() as int] as int] == *nd);
                    }
                    return Err(e);
                },
            }
        } else {
            match merge_node(inp, &subtrees, &results, nd) {
                Ok(x) => x,
                Err(e) => {
                    proof {
                        assert(results@.len() == i && results@.len() < order@.len());
                        assert(inp.nodes@[order@[results@.len() as int] as int] == *nd);
                        assert(node_overflows(*inp, results@, *nd));
                    }
                    return Err(e);
                },
            }
        };
        let ghost before = results@;
        proof {
            assert(before.subrange(0, i as int) =~= before);
        }
        results.push(res);
        proof {
            assert forall|j: int|
                0 <= j < i + 1 implies node_result_ok(
                    *inp,
                    results@.subrange(0, j),
                    inp.nodes@[order@[j] as int],
                    #[trigger] results@[j],
                ) by {
                assert(results@.subrange(0, j) =~= before.subrange(0, j));
                if j < i {
                    assert(results@[j] == before[j]);
                }
            }
        }
        i = i + 1;
    }
    Ok(results)
}

} // verus!
