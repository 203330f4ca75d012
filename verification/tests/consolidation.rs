use cmx_report::amount_map::AmountMap;
use cmx_report::consol::close::{after_step, close_gate, review_passes, run_code_of, CloseError, CloseStep};
use cmx_report::consol::consolidate::{consolidate, capital_ok, ConsolError, ConsolInput, FxRate};
use cmx_report::consol::engine::CapitalCfg;
use cmx_report::consol::run::{compute_subtrees, method_str, run_order, same_child_subtree};
use cmx_report::consol::statements::{
    amt, cf, cg, cg_neg, consol_balance_sheet, consol_cash_flow, consol_equity_changes, consol_income_statement,
    eqc_neg, lbl, statement_cells, sub,
};
use cmx_report::consol::types::{ConsolMethod, ScopeNode};
use cmx_report::decimal::{dec_parse, Dec};

fn d(s: &str) -> Dec {
    dec_parse(s).unwrap()
}

fn node(code: &str, parent: Option<&str>, method: ConsolMethod, own: &str, leaf: bool, level: i32) -> ScopeNode {
    ScopeNode {
        code: code.to_string(),
        name: format!("{code} name"),
        parent: parent.map(|p| p.to_string()),
        method,
        ownership: d(own),
        is_leaf: leaf,
        level,
    }
}

fn map_of(pairs: &[(&str, &str)]) -> AmountMap {
    let mut m = AmountMap::new();
    for (k, v) in pairs {
        m.insert(k, d(v));
    }
    m
}

fn input() -> ConsolInput {
    ConsolInput {
        cfg: CapitalCfg {
            investment_account: "1511".into(),
            goodwill_account: "1801".into(),
            nci_account: "4400".into(),
            minority_pl_account: "4900".into(),
            capital_reserve_account: "4002".into(),
        },
        nodes: vec![
            node("GROUP", None, ConsolMethod::Full, "1", false, 1),
            node("P", Some("GROUP"), ConsolMethod::Full, "1", true, 2),
            node("S", Some("GROUP"), ConsolMethod::Full, "0.8", true, 2),
        ],
        investment: vec![("S".to_string(), d("140"))],
        currency: vec![],
        common_control: vec![],
        balances: vec![
            ("P".to_string(), map_of(&[("1001", "80"), ("1511", "140"), ("4001", "-150"), ("4104", "-70")])),
            ("S".to_string(), map_of(&[("1001", "150"), ("4001", "-100"), ("4101", "-20"), ("4104", "-30")])),
        ],
        account_types: vec![
            ("4001".to_string(), "equity".to_string()),
            ("4101".to_string(), "equity".to_string()),
            ("4104".to_string(), "equity".to_string()),
            ("1001".to_string(), "asset".to_string()),
            ("1511".to_string(), "asset".to_string()),
        ],
        rules: vec![],
        ic: vec![],
        interim: vec![],
        goodwill_impair: vec![],
        step_txns: vec![],
        fa_profit: vec![],
        group_currency: "CNY".to_string(),
        cta_account: "4106".to_string(),
        fx_rates: vec![],
    }
}

#[test]
fn consolidation_runs_leaves_first_and_ties() {
    let rs = consolidate(&input()).unwrap();
    let order: Vec<&str> = rs.iter().map(|r| r.node.as_str()).collect();
    assert_eq!(order, vec!["P", "S", "GROUP"]);
    let g = &rs[2];
    let c = |a: &str| g.consolidated.get(a).unwrap_or(Dec::zero());
    assert_eq!(c("1001"), d("230"));
    assert_eq!(c("1511"), d("0"));
    assert_eq!(c("4001"), d("-150"));
    assert_eq!(c("4101"), d("0"));
    assert_eq!(c("4104"), d("-70"));
    assert_eq!(c("1801"), d("20"));
    assert_eq!(c("4400"), d("-30"));
    assert_eq!(g.elims.len(), 1);
    assert_eq!(g.adjusts.len(), 0);
    assert_eq!(g.individual.get("1001"), Some(d("230")));
    let mut total = Dec::zero();
    for i in 0..g.consolidated.len() {
        total = cmx_report::decimal::dec_add(total, g.consolidated.entry(i).1);
    }
    assert_eq!(total, d("0"));
    assert_eq!(rs[0].individual.get("1511"), Some(d("140")));
    assert_eq!(rs[0].consolidated.get("1511"), Some(d("140")));
}

#[test]
fn consolidation_refuses_empty_scope() {
    let mut inp = input();
    inp.nodes.clear();
    assert!(matches!(consolidate(&inp), Err(ConsolError::EmptyScope)));
}

#[test]
fn foreign_leaf_needs_rates() {
    let mut inp = input();
    inp.currency = vec![("S".to_string(), "USD".to_string())];
    match consolidate(&inp) {
        Err(ConsolError::MissingRates { node, currency }) => {
            assert_eq!(node, "S");
            assert_eq!(currency, "USD");
        },
        _ => panic!("expected missing rates"),
    }
}

#[test]
fn foreign_leaf_is_translated() {
    let mut inp = input();
    inp.currency = vec![("S".to_string(), "USD".to_string())];
    inp.fx_rates = vec![
        FxRate { currency: "USD".into(), rate_type: "closing".into(), rate: d("7") },
        FxRate { currency: "USD".into(), rate_type: "average".into(), rate: d("6.8") },
        FxRate { currency: "USD".into(), rate_type: "historical".into(), rate: d("6.5") },
    ];
    inp.investment = vec![];
    let rs = consolidate(&inp).unwrap();
    let s = &rs[1];
    assert_eq!(s.node, "S");
    assert_eq!(s.individual.get("1001"), Some(d("1050")));
    assert_eq!(s.individual.get("4001"), Some(d("-650")));
    assert_eq!(s.individual.get("4106"), Some(d("-75")));
}

#[test]
fn subtrees_and_lowest_common_ancestor() {
    let nodes = vec![
        node("G", None, ConsolMethod::Full, "1", false, 1),
        node("A", Some("G"), ConsolMethod::Full, "1", false, 2),
        node("A1", Some("A"), ConsolMethod::Full, "1", true, 3),
        node("A2", Some("A"), ConsolMethod::Full, "1", true, 3),
        node("B", Some("G"), ConsolMethod::Full, "1", true, 2),
    ];
    let st = compute_subtrees(&nodes);
    assert_eq!(st.len(), 5);
    let g = &st[0].1;
    for c in ["G", "A", "A1", "A2", "B"] {
        assert!(g.iter().any(|x| x == c));
    }
    let a = &st[1].1;
    assert!(a.iter().any(|x| x == "A1") && !a.iter().any(|x| x == "B"));
    let kids = vec!["A".to_string(), "B".to_string()];
    assert!(same_child_subtree(&kids, &st, "A1", "A2"));
    assert!(!same_child_subtree(&kids, &st, "A1", "B"));
    let o = run_order(&nodes);
    assert_eq!(o, vec![2, 3, 1, 4, 0]);
    assert_eq!(method_str(ConsolMethod::Proportional), "proportional");
    assert_eq!(ConsolMethod::parse(method_str(ConsolMethod::Equity)), ConsolMethod::Equity);
}

#[test]
fn capital_amounts_checked() {
    let se = vec![("4001".to_string(), d("-100"))];
    assert!(capital_ok(&se, d("140"), d("0.8")));
}

#[test]
fn close_steps_in_order() {
    assert_eq!(run_code_of("S1", "2026-06"), "S1-2026-06");
    assert_eq!(close_gate("collecting", "collect", None), Ok(CloseStep::Collect));
    assert_eq!(close_gate("closed", "collect", None), Err(CloseError::AlreadyClosed));
    assert_eq!(
        close_gate("collecting", "collect", Some("review")),
        Err(CloseError::NotCurrent { current: "collect".into(), requested: "review".into() })
    );
    assert_eq!(close_gate("x", "bogus", None), Err(CloseError::UnknownStep("bogus".into())));
    let mut step = CloseStep::Collect;
    let mut seen = vec![step.as_str().to_string()];
    loop {
        let (next, status, done) = after_step(step);
        if done {
            assert_eq!((next.as_str(), status.as_str()), ("closed", "closed"));
            break;
        }
        step = CloseStep::parse(&next).unwrap();
        seen.push(next);
    }
    assert_eq!(seen, vec!["collect", "reconcile", "consolidate", "review", "statements"]);
    assert!(!review_passes(CloseStep::Review, false));
    assert!(review_passes(CloseStep::Review, true));
    assert!(review_passes(CloseStep::Collect, false));
}

#[test]
fn statement_templates() {
    assert_eq!(cg("1001"), "CG(0,@current,'1001')");
    assert_eq!(cg_neg("4001"), "-CG(0,@current,'4001')");
    assert_eq!(cf("CF01"), "CF(0,@current,'CF01')");
    assert_eq!(eqc_neg("EC01"), "-EQC(0,@current,'EC01')");
    let l = lbl("x");
    assert!(l.formula.is_none() && !l.bold);
    assert!(sub("t", "B1".into()).bold);
    assert!(!amt("t", "B1".into()).bold);
    let bs = consol_balance_sheet();
    assert_eq!(bs.code, "CBS");
    assert_eq!(bs.lines.len(), 16);
    assert_eq!(bs.lines[15].formula.as_deref(), Some("B9+B15"));
    assert_eq!(consol_income_statement().lines.len(), 7);
    assert_eq!(consol_cash_flow().lines.len(), 20);
    assert_eq!(consol_equity_changes().lines[0].formula.as_deref(), Some("-EQC(0,@current,'EC01')"));
    let cells = statement_cells(&consol_income_statement());
    assert_eq!(cells.len(), 13);
    assert_eq!(cells[0].cell_ref, "A1");
    assert_eq!(cells[0].formula, "'一、营业收入'");
    assert_eq!(cells[1].cell_ref, "B1");
    assert_eq!(cells[1].formula, "-CG(0,@current,'6001')");
    assert_eq!(cells[1].value_type, "amount");
}

#[test]
fn label_quotes_escaped() {
    let st = cmx_report::consol::statements::Statement { code: "T", name: "t", lines: vec![lbl("it's")] };
    let cells = statement_cells(&st);
    assert_eq!(cells[0].formula, "'it\\'s'");
}
