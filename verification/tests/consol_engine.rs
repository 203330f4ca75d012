use cmx_report::amount_map::AmountMap;
use cmx_report::consol::aggregate::{
    aggregate, aggregate_cash_flow, aggregate_equity_change, CashFlowRow, Contribution, EquityChangeRow,
};
use cmx_report::consol::cash_flow::{derive_cash_flow_worksheet, CfActivity};
use cmx_report::consol::engine::{
    all_balanced, capital_elimination, common_control_elimination, debt_elimination, disposal,
    dividend_elimination, equity_pickup, fixed_asset_profit_elimination, goodwill_impairment,
    goodwill_impairment_test, inventory_profit_elimination, minority_pl, net_investment_hedge,
    sales_elimination, step_acquisition, CapitalCfg, FixedAssetProfit, IcMatch, InventoryProfit,
};
use cmx_report::consol::translate::{translate_entity, FxRates};
use cmx_report::consol::types::{AccountType, ConsolMethod};
use cmx_report::consol::worksheet::worksheet;
use cmx_report::decimal::{dec_parse, Dec};

fn d(s: &str) -> Dec {
    dec_parse(s).unwrap()
}

fn same(a: Dec, b: &str) -> bool {
    a.eq_val(&d(b))
}

fn cfg() -> CapitalCfg {
    CapitalCfg {
        investment_account: "1511".into(),
        goodwill_account: "1801".into(),
        nci_account: "4400".into(),
        minority_pl_account: "4900".into(),
        capital_reserve_account: "4002".into(),
    }
}

fn map_of(pairs: &[(&str, &str)]) -> AmountMap {
    let mut m = AmountMap::new();
    for (k, v) in pairs {
        m.insert(k, d(v));
    }
    m
}

fn get(m: &AmountMap, k: &str) -> Dec {
    m.get(k).unwrap()
}

#[test]
fn aggregate_full_and_proportional() {
    let children = vec![
        Contribution {
            entity: "P".into(),
            method: ConsolMethod::Full,
            ownership: d("1"),
            balances: vec![("1001".into(), d("100")), ("2001".into(), d("-40"))],
        },
        Contribution {
            entity: "S".into(),
            method: ConsolMethod::Full,
            ownership: d("0.8"),
            balances: vec![("1001".into(), d("50")), ("2001".into(), d("-30"))],
        },
        Contribution {
            entity: "JV".into(),
            method: ConsolMethod::Equity,
            ownership: d("0.5"),
            balances: vec![("1001".into(), d("999"))],
        },
    ];
    let agg = aggregate(&children);
    assert!(same(get(&agg, "1001"), "150"));
    assert!(same(get(&agg, "2001"), "-70"));
}

#[test]
fn capital_elimination_balanced_with_goodwill_and_nci() {
    let sub_equity = vec![("4001".to_string(), d("-100")), ("4101".to_string(), d("-20")), ("4104".to_string(), d("-30"))];
    let e = capital_elimination(&sub_equity, d("140"), d("0.8"), &cfg(), "R_CAP");
    assert!(e.is_balanced());
    assert!(same(e.net_for("1801"), "20"));
    assert!(same(e.net_for("4400"), "-30"));
    assert!(same(e.net_for("1511"), "-140"));
    assert!(same(e.net_for("4001"), "100"));
    assert!(same(e.net_for("4104"), "30"));
}

#[test]
fn common_control_uses_capital_reserve_no_goodwill() {
    let sub_equity = vec![("4001".to_string(), d("-100")), ("4101".to_string(), d("-20")), ("4104".to_string(), d("-30"))];
    let e = common_control_elimination(&sub_equity, d("140"), d("0.8"), &cfg(), "R_CC");
    assert!(e.is_balanced());
    assert_eq!(e.elim_type, "capital_common_control");
    assert!(same(e.net_for("4002"), "20"));
    assert!(same(e.net_for("1801"), "0"));
    assert!(same(e.net_for("4400"), "-30"));
    assert!(same(e.net_for("1511"), "-140"));
    assert!(same(e.net_for("4001"), "100"));
    assert!(same(e.net_for("4104"), "30"));
}

#[test]
fn step_acquisition_remeasures_prev_holding() {
    let e = step_acquisition(d("100"), d("130"), "1511", "6111", "R_STEP").unwrap();
    assert!(e.is_balanced());
    assert!(same(e.net_for("1511"), "30"));
    assert!(same(e.net_for("6111"), "-30"));
    assert!(step_acquisition(d("100"), d("100"), "1511", "6111", "R_STEP").is_none());
}

#[test]
fn disposal_equity_txn_vs_loss_of_control() {
    let e = disposal(false, d("80"), d("60"), d("0"), d("0"), "4400", "4002", "6111", "R_DISP").unwrap();
    assert!(e.is_balanced());
    assert!(same(e.net_for("4002"), "-20"));
    assert!(same(e.net_for("4400"), "20"));
    assert!(same(e.net_for("6111"), "0"));
    let l = disposal(true, d("100"), d("0"), d("50"), d("120"), "4400", "4002", "6111", "R_DISP").unwrap();
    assert!(l.is_balanced());
    assert!(same(l.net_for("6111"), "-30"));
    assert_eq!(l.elim_type, "disposal_loss_control");
}

#[test]
fn minority_pl_splits_profit() {
    let e = minority_pl(d("50"), d("0.8"), &cfg(), "R_NCI").unwrap();
    assert!(e.is_balanced());
    assert!(same(e.net_for("4900"), "10"));
    assert!(same(e.net_for("4400"), "-10"));
}

#[test]
fn debt_and_sales_elimination_balanced() {
    let matches = vec![IcMatch { entity_a: "P".into(), entity_b: "S".into(), amount: d("60") }];
    let debt = debt_elimination(&matches, "2202", "1122", "R_DEBT");
    assert_eq!(debt.len(), 1);
    assert!(debt[0].is_balanced());
    assert!(same(debt[0].net_for("2202"), "60"));
    assert!(same(debt[0].net_for("1122"), "-60"));
    assert_eq!(debt[0].lines[1].partner.as_deref(), Some("P"));
    let sales = sales_elimination(&matches, "6001", "6401", "R_SALES");
    assert!(sales[0].is_balanced());
    assert!(same(sales[0].net_for("6001"), "60"));
    assert!(same(sales[0].net_for("6401"), "-60"));
}

#[test]
fn dividend_elimination_removes_intragroup_income() {
    let matches = vec![IcMatch { entity_a: "P".into(), entity_b: "S".into(), amount: d("40") }];
    let e = dividend_elimination(&matches, "6111", "4104", "R_DIV");
    assert_eq!(e.len(), 1);
    assert!(e[0].is_balanced());
    assert!(same(e[0].net_for("6111"), "40"));
    assert!(same(e[0].net_for("4104"), "-40"));
    assert_eq!(e[0].lines[0].partner.as_deref(), Some("P"));
    assert_eq!(e[0].lines[1].partner.as_deref(), Some("S"));
}

#[test]
fn worksheet_consolidated_equals_ind_plus_adjust_plus_elim() {
    let individual = map_of(&[("1122", "200"), ("2202", "-150")]);
    let matches = vec![IcMatch { entity_a: "P".into(), entity_b: "S".into(), amount: d("60") }];
    let elim = debt_elimination(&matches, "2202", "1122", "R_DEBT");
    let cells = worksheet("GROUP", &individual, &[], &elim);
    let ar = cells.iter().find(|c| c.account == "1122").unwrap();
    assert!(same(ar.individual, "200"));
    assert!(same(ar.elim, "-60"));
    assert!(same(ar.consolidated, "140"));
    let ap = cells.iter().find(|c| c.account == "2202").unwrap();
    assert!(same(ap.consolidated, "-90"));
}

#[test]
fn full_worked_example_balance_sheet_ties() {
    let p = Contribution {
        entity: "P".into(),
        method: ConsolMethod::Full,
        ownership: d("1"),
        balances: vec![
            ("1001".into(), d("80")),
            ("1511".into(), d("120")),
            ("4001".into(), d("-150")),
            ("4104".into(), d("-50")),
        ],
    };
    let s = Contribution {
        entity: "S".into(),
        method: ConsolMethod::Full,
        ownership: d("1"),
        balances: vec![("1001".into(), d("120")), ("4001".into(), d("-100")), ("4104".into(), d("-20"))],
    };
    let individual = aggregate(&[p, s]);
    let cap = capital_elimination(
        &[("4001".to_string(), d("-100")), ("4104".to_string(), d("-20"))],
        d("120"),
        d("1"),
        &cfg(),
        "R_CAP",
    );
    assert!(cap.is_balanced());
    let cells = worksheet("GROUP", &individual, &[], &[cap]);
    let get = |a: &str| cells.iter().find(|c| c.account == a).map(|c| c.consolidated).unwrap_or(Dec::zero());
    assert!(same(get("1001"), "200"));
    assert!(same(get("1511"), "0"));
    assert!(same(get("4001"), "-150"));
    assert!(same(get("4104"), "-50"));
    assert!(same(get("1801"), "0"));
    assert!(same(get("4400"), "0"));
    let mut total = Dec::zero();
    for c in &cells {
        total = cmx_report::decimal::dec_add(total, c.consolidated);
    }
    assert!(same(total, "0"));
}

#[test]
fn fx_translate_balances_with_cta() {
    let bal = vec![("1001".to_string(), d("100")), ("4001".to_string(), d("-100"))];
    let ty = |a: &str| if a == "1001" { AccountType::Asset } else { AccountType::Equity };
    let rates = FxRates { closing: d("7.0"), average: d("6.8"), historical: d("6.5") };
    let out = translate_entity(&bal, ty, rates, "4106");
    let get = |a: &str| out.iter().find(|(x, _)| x == a).map(|(_, v)| *v).unwrap_or(Dec::zero());
    assert!(same(get("1001"), "700.0"));
    assert!(same(get("4001"), "-650.0"));
    assert!(same(get("4106"), "-50.0"));
    let mut total = Dec::zero();
    for (_, v) in &out {
        total = cmx_report::decimal::dec_add(total, *v);
    }
    assert!(same(total, "0"));
}

#[test]
fn inventory_unrealized_profit_two_periods() {
    let p = InventoryProfit { seller: "A".into(), buyer: "B".into(), opening: d("30"), ending: d("50") };
    let es = inventory_profit_elimination(&p, "6401", "1401", "4104", "R_INV", "R_INV_OPEN");
    assert_eq!(es.len(), 2);
    assert!(all_balanced(&es));
    let opening = es.iter().find(|e| e.is_opening).unwrap();
    assert!(same(opening.net_for("4104"), "30"));
    assert!(same(opening.net_for("6401"), "-30"));
    let ending = es.iter().find(|e| !e.is_opening).unwrap();
    assert!(same(ending.net_for("6401"), "50"));
    assert!(same(ending.net_for("1401"), "-50"));
    let mut cost = Dec::zero();
    for e in &es {
        cost = cmx_report::decimal::dec_add(cost, e.net_for("6401"));
    }
    assert!(same(cost, "20"));
    let first = InventoryProfit { seller: "A".into(), buyer: "B".into(), opening: d("0"), ending: d("50") };
    let es1 = inventory_profit_elimination(&first, "6401", "1401", "4104", "R_INV", "R_INV_OPEN");
    assert_eq!(es1.len(), 1);
    assert!(!es1[0].is_opening);
}

#[test]
fn fixed_asset_profit_with_depreciation_reversal() {
    let p = FixedAssetProfit {
        seller: "A".into(),
        buyer: "B".into(),
        unrealized: d("100"),
        dep_years: d("5"),
        elapsed_years: d("2"),
    };
    let es = fixed_asset_profit_elimination(&p, "6301", "1601", "1602", "6602", "R_FA", "R_FA_DEP");
    assert_eq!(es.len(), 2);
    assert!(all_balanced(&es));
    let orig = es.iter().find(|e| e.elim_type == "fixed_asset_profit").unwrap();
    assert!(same(orig.net_for("6301"), "100"));
    assert!(same(orig.net_for("1601"), "-100"));
    let dep = es.iter().find(|e| e.elim_type == "fixed_asset_depreciation").unwrap();
    assert!(same(dep.net_for("1602"), "40"));
    assert!(same(dep.net_for("6602"), "-40"));
    let p0 = FixedAssetProfit {
        seller: "A".into(),
        buyer: "B".into(),
        unrealized: d("100"),
        dep_years: d("5"),
        elapsed_years: d("0"),
    };
    assert_eq!(fixed_asset_profit_elimination(&p0, "6301", "1601", "1602", "6602", "R_FA", "R_FA_DEP").len(), 1);
}

#[test]
fn equity_pickup_and_loss() {
    let e = equity_pickup(d("200"), d("0.3"), "1511", "6111", "R_EM").unwrap();
    assert!(e.is_balanced());
    assert!(same(e.net_for("1511"), "60"));
    assert!(same(e.net_for("6111"), "-60"));
    let l = equity_pickup(d("-100"), d("0.3"), "1511", "6111", "R_EM").unwrap();
    assert!(l.is_balanced());
    assert!(same(l.net_for("1511"), "-30"));
    assert!(same(l.net_for("6111"), "30"));
    assert!(equity_pickup(d("0"), d("0.3"), "1511", "6111", "R_EM").is_none());
}

#[test]
fn goodwill_impairment_entry() {
    let e = goodwill_impairment(d("15"), "1801", "6701", "R_GW").unwrap();
    assert!(e.is_balanced());
    assert!(same(e.net_for("6701"), "15"));
    assert!(same(e.net_for("1801"), "-15"));
    assert!(goodwill_impairment(d("0"), "1801", "6701", "R_GW").is_none());
}

#[test]
fn aggregate_cash_flow_skips_intercompany_and_nonmembers() {
    let members = vec!["P".to_string(), "S".to_string()];
    let row = |e: &str, act: &str, item: &str, amt: &str, ic: bool| CashFlowRow {
        entity: e.into(),
        activity: act.into(),
        item_code: item.into(),
        amount: d(amt),
        is_intercompany: ic,
    };
    let rows = vec![
        row("P", "operating", "CF01", "200", false),
        row("S", "operating", "CF01", "150", false),
        row("P", "operating", "CF01", "80", true),
        row("S", "operating", "CF01", "-80", true),
        row("X", "operating", "CF01", "999", false),
        row("P", "investing", "CF20", "-60", false),
    ];
    let agg = aggregate_cash_flow(&rows, &members);
    assert!(same(get(&agg, "CF01"), "350"));
    assert!(same(get(&agg, "CF20"), "-60"));
    assert_eq!(agg.len(), 2);
}

#[test]
fn aggregate_equity_change_by_column() {
    let members = vec!["P".to_string(), "S".to_string()];
    let row = |e: &str, col: &str, item: &str, ct: &str, amt: &str| EquityChangeRow {
        entity: e.into(),
        column_code: col.into(),
        equity_item: item.into(),
        change_type: ct.into(),
        amount: d(amt),
    };
    let rows = vec![
        row("P", "EC01", "paid_in", "opening", "-150"),
        row("S", "EC01", "paid_in", "opening", "-100"),
        row("P", "", "x", "other", "-9"),
        row("X", "EC01", "paid_in", "opening", "-999"),
        row("P", "EC05", "retained", "comprehensive_income", "-40"),
    ];
    let agg = aggregate_equity_change(&rows, &members);
    assert!(same(get(&agg, "EC01"), "-250"));
    assert!(same(get(&agg, "EC05"), "-40"));
    assert_eq!(agg.len(), 2);
}

#[test]
fn cash_flow_worksheet_ties_to_cash_delta() {
    let opening = map_of(&[("1001", "100"), ("1122", "50"), ("1601", "200"), ("4001", "-350")]);
    let closing = map_of(&[("1001", "180"), ("1122", "30"), ("1601", "260"), ("4001", "-470")]);
    let classify = |a: &str| match a {
        "1001" => CfActivity::Cash,
        "1122" => CfActivity::Operating,
        "1601" => CfActivity::Investing,
        "4001" => CfActivity::Financing,
        _ => CfActivity::Operating,
    };
    let lines = derive_cash_flow_worksheet(&opening, &closing, classify);
    let get = |act: CfActivity| lines.iter().find(|l| l.activity == act).unwrap().amount;
    assert!(same(get(CfActivity::Operating), "20"));
    assert!(same(get(CfActivity::Investing), "-60"));
    assert!(same(get(CfActivity::Financing), "120"));
    assert!(same(get(CfActivity::Cash), "80"));
    let three = cmx_report::decimal::dec_add(
        cmx_report::decimal::dec_add(get(CfActivity::Operating), get(CfActivity::Investing)),
        get(CfActivity::Financing),
    );
    assert!(three.eq_val(&get(CfActivity::Cash)));
}

#[test]
fn net_investment_hedge_reclassifies_to_cta() {
    let e = net_investment_hedge(d("50"), "4106", "2501", "R_NIH").unwrap();
    assert!(e.is_balanced());
    assert!(same(e.net_for("2501"), "50"));
    assert!(same(e.net_for("4106"), "-50"));
    assert_eq!(e.elim_type, "net_investment_hedge");
    assert!(net_investment_hedge(d("0"), "4106", "2501", "R_NIH").is_none());
}

#[test]
fn goodwill_impairment_test_capped_at_goodwill() {
    assert!(same(goodwill_impairment_test(d("500"), d("460"), d("80")), "40"));
    assert!(same(goodwill_impairment_test(d("500"), d("380"), d("80")), "80"));
    assert!(same(goodwill_impairment_test(d("500"), d("520"), d("80")), "0"));
}

#[test]
fn checked_goodwill_test_and_line_net() {
    let got = cmx_report::consol::engine::try_goodwill_impairment_test(d("500"), d("460"), d("80"));
    assert!(same(got.unwrap(), "40"));
    let big = Dec::new(79228162514264337593543950335, 0).unwrap();
    let neg = big.neg();
    assert!(cmx_report::consol::engine::try_goodwill_impairment_test(big, neg, d("1")).is_none());
    let line = cmx_report::consol::types::ElimLine { account: "1001".into(), dr: d("7"), cr: d("2.5"), partner: None };
    assert!(same(line.try_net().unwrap(), "4.5"));
    let wide = cmx_report::consol::types::ElimLine { account: "1001".into(), dr: big, cr: neg, partner: None };
    assert!(wide.try_net().is_none());
}

#[test]
fn worksheet_total_equals_individual_total_when_entries_balance() {
    let individual = map_of(&[("1122", "200"), ("2202", "-150"), ("1001", "30"), ("4001", "-80")]);
    let matches = vec![IcMatch { entity_a: "P".into(), entity_b: "S".into(), amount: d("60") }];
    let elim = debt_elimination(&matches, "2202", "1122", "R_DEBT");
    let adj = capital_elimination(&[("4001".to_string(), d("-80"))], d("80"), d("1"), &cfg(), "R_CAP");
    assert!(adj.is_balanced());
    assert!(elim.iter().all(|e| e.is_balanced()));
    let cells = worksheet("GROUP", &individual, &[adj], &elim);
    let mut total = Dec::zero();
    for c in &cells {
        total = cmx_report::decimal::dec_add(total, c.consolidated);
    }
    assert!(same(total, "0"));
    let accounts: Vec<&str> = cells.iter().map(|c| c.account.as_str()).collect();
    let mut sorted = accounts.clone();
    sorted.sort();
    assert_eq!(accounts, sorted);
    assert!(accounts.contains(&"1511"));
}
