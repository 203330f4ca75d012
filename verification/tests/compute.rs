use cmx_report::decimal::{dec_parse, Dec};
use cmx_report::formula::eval::{BalanceKey, FetchKind};
use cmx_report::formula::report::{report_key, CellInput, ComputeOutcome, ReportSnapshot};
use cmx_report::formula::resolve::{compute_report, request_of, Halt, Loaded, MockProvider, Need, World};
use cmx_report::formula::value::FValue;

fn d(s: &str) -> Dec {
    dec_parse(s).unwrap()
}

fn is_num(v: &FValue, s: &str) -> bool {
    match v {
        FValue::Num(n) => n.eq_val(&d(s)),
        _ => false,
    }
}

fn cell(r: &str, formula: Option<&str>, elem: Option<&str>) -> CellInput {
    CellInput {
        cell_ref: r.to_string(),
        element_code: elem.map(|e| e.to_string()),
        cell_formula: formula.map(|f| f.to_string()),
        stored: None,
        is_manual: false,
    }
}

fn snapshot(cells: Vec<CellInput>, elem: Vec<(String, String)>) -> ReportSnapshot {
    ReportSnapshot {
        report: "BS".into(),
        version: "v1".into(),
        org: "HQ".into(),
        period: "2026-06".into(),
        cells,
        element_formulas: elem,
    }
}

/// Computes, answering each request and computing again until done.
fn run<L, A>(snap: &ReportSnapshot, periods: Vec<String>, load: L, amounts: A) -> ComputeOutcome
where
    L: Fn(&str, &str, &str, &str) -> Loaded,
    A: Fn(&Vec<BalanceKey>) -> Result<Vec<(BalanceKey, Dec)>, String>,
{
    let mut world = World { reports: Vec::new(), batches: Vec::new() };
    for _ in 0..100 {
        match compute_report(snap, &world, &periods, &Vec::new()) {
            Ok(out) => return out,
            Err(Halt::Ask(Need::Report(r, v, o, p))) => {
                let key = report_key(&r, &v, &o, &p);
                world.reports.push((key, load(&r, &v, &o, &p)));
            }
            Err(Halt::Ask(Need::Amounts(keys))) => {
                let got = amounts(&keys);
                world.batches.push((keys, got));
            }
            Err(Halt::Unevaluable) => panic!("a formula could not be evaluated"),
        }
    }
    panic!("too many requests")
}

fn run_mock(snap: &ReportSnapshot) -> ComputeOutcome {
    let mock = MockProvider::default();
    run(snap, vec![], |r, v, o, p| mock.load_report(r, v, o, p), |ks| Ok(mock.batch_balance(ks)))
}

#[test]
fn two_pass_fetch_qm() {
    let snap = snapshot(vec![cell("C5", Some("QM(0,@current,'1001')"), None)], vec![]);
    let out = run_mock(&snap);
    assert_eq!(out.computed, 1);
    assert!(is_num(&out.cells[0].value, "1234"));
    assert_eq!(out.cells[0].status, "computed");
}

#[test]
fn element_formula_inherited() {
    let elem = vec![("CASH".to_string(), "QM(0,@current,'1001')".to_string())];
    let snap = snapshot(vec![cell("C5", None, Some("CASH"))], elem);
    let out = run_mock(&snap);
    assert_eq!(out.computed, 1);
    assert!(is_num(&out.cells[0].value, "1234"));
}

#[test]
fn cell_formula_overrides_element() {
    let elem = vec![("CASH".to_string(), "QM(0,@current,'1001')".to_string())];
    let snap = snapshot(vec![cell("C5", Some("100"), Some("CASH"))], elem);
    let out = run_mock(&snap);
    assert!(is_num(&out.cells[0].value, "100"));
}

#[test]
fn cell_reference_topo_order() {
    let snap = snapshot(
        vec![
            cell("C5", Some("10"), None),
            cell("C6", Some("C5 + 5"), None),
            cell("C7", Some("SUM(C5:C6)"), None),
        ],
        vec![],
    );
    let out = run_mock(&snap);
    let get = |r: &str| &out.cells.iter().find(|c| c.cell_ref == r).unwrap().value;
    assert!(is_num(get("C5"), "10"));
    assert!(is_num(get("C6"), "15"));
    assert!(is_num(get("C7"), "25"));
}

#[test]
fn self_cycle_detected() {
    let snap = snapshot(vec![cell("C5", Some("C6 + 1"), None), cell("C6", Some("C5 + 1"), None)], vec![]);
    let out = run_mock(&snap);
    assert!(out.error_count >= 1, "应检出循环引用");
    assert!(out.cells.iter().any(|c| c.value.is_error()));
    assert!(!out.errors.is_empty());
}

#[test]
fn relative_period_offset() {
    let snap = snapshot(vec![cell("C5", Some("QM(-1,@current,'1001')"), None)], vec![]);
    let periods = vec![
        "2026-03".to_string(),
        "2026-04".to_string(),
        "2026-05".to_string(),
        "2026-06".to_string(),
    ];
    let out = run(
        &snap,
        periods,
        |_, _, _, _| Loaded::Missing,
        |ks| {
            Ok(ks
                .iter()
                .map(|k| {
                    let tail = k.period.rsplit('-').next().unwrap_or("0");
                    (k.clone(), dec_parse(tail).unwrap_or(Dec::zero()))
                })
                .collect())
        },
    );
    assert!(is_num(&out.cells[0].value, "5"));
}

fn other_report(report: &str, version: &str, org: &str, period: &str) -> Loaded {
    let other = if report == "A" { "B" } else { "A" };
    Loaded::Found(ReportSnapshot {
        report: report.to_string(),
        version: version.to_string(),
        org: org.to_string(),
        period: period.to_string(),
        cells: vec![CellInput {
            cell_ref: "C5".into(),
            element_code: None,
            cell_formula: Some(format!("REF('{other}','v1',C5)")),
            stored: None,
            is_manual: false,
        }],
        element_formulas: vec![],
    })
}

#[test]
fn cross_report_ref_and_cycle() {
    let snap = ReportSnapshot {
        report: "A".into(),
        version: "v1".into(),
        org: "HQ".into(),
        period: "2026-06".into(),
        cells: vec![CellInput {
            cell_ref: "C5".into(),
            element_code: None,
            cell_formula: Some("REF('B','v1',C5)".into()),
            stored: None,
            is_manual: false,
        }],
        element_formulas: vec![],
    };
    let out = run(&snap, vec![], other_report, |_| Ok(Vec::new()));
    assert!(out.error_count >= 1, "跨表环应被检出");
    assert!(out.errors.iter().any(|e| e.contains("循环引用")));
}

#[test]
fn manual_cell_skipped() {
    let mut c = cell("C5", Some("QM(0,@current,'1001')"), None);
    c.is_manual = true;
    c.stored = Some(FValue::Num(Dec::from_i64(999)));
    let snap = snapshot(vec![c], vec![]);
    let out = run_mock(&snap);
    assert_eq!(out.computed, 0);
    assert!(out.cells.is_empty());
}

#[test]
fn compute_stops_with_the_first_missing_answer() {
    let snap = snapshot(vec![cell("C5", Some("QM(0,@current,'1001') + REF('X','v1',C1)"), None)], vec![]);
    let world = World { reports: Vec::new(), batches: Vec::new() };
    match compute_report(&snap, &world, &vec![], &vec![]) {
        Err(Halt::Ask(Need::Amounts(ks))) => {
            assert_eq!(ks.len(), 1);
            assert_eq!(ks[0].kind, FetchKind::EndBalance);
            assert_eq!(ks[0].object, "1001");
            assert_eq!(ks[0].org, "HQ");
            assert_eq!(ks[0].period, "2026-06");
        }
        _ => panic!("expected a request for amounts"),
    }
}

#[test]
fn missing_report_reads_ref_error_and_failed_one_is_reported() {
    let snap = snapshot(vec![cell("C5", Some("REF('X','v1',C1)"), None), cell("C6", Some("REF('Y','v1',C1)"), None)], vec![]);
    let out = run(
        &snap,
        vec![],
        |r, _, _, _| if r == "X" { Loaded::Missing } else { Loaded::Failed("down".to_string()) },
        |_| Ok(Vec::new()),
    );
    assert_eq!(out.error_count, 2);
    assert_eq!(out.cells[0].value, FValue::Error("#REF!".to_string()));
    assert_eq!(out.cells[1].status, "error");
    assert!(out.errors.iter().any(|e| e.contains("down")));
}

#[test]
fn failed_fetch_reads_zero_and_is_reported() {
    let snap = snapshot(vec![cell("C5", Some("QM(0,@current,'1001') + 7"), None)], vec![]);
    let out = run(&snap, vec![], |_, _, _, _| Loaded::Missing, |_| Err("timeout".to_string()));
    assert!(is_num(&out.cells[0].value, "7"));
    assert!(out.errors.iter().any(|e| e.contains("timeout")));
}

#[test]
fn bad_formula_reads_formula_error() {
    let snap = snapshot(vec![cell("C5", Some("1 +"), None), cell("C6", Some("C5"), None)], vec![]);
    let out = run_mock(&snap);
    assert_eq!(out.cells[0].value, FValue::Error("#FORMULA!".to_string()));
    assert_eq!(out.cells[1].value, FValue::Error("#FORMULA!".to_string()));
    assert_eq!(out.error_count, 2);
}

#[test]
fn batch_request_is_sorted_by_object_and_deduplicated() {
    let k = |o: &str| BalanceKey { kind: FetchKind::EndBalance, period: "P".into(), org: "O".into(), object: o.into() };
    let req = request_of(&vec![k("2"), k("1"), k("2"), k("1")]);
    let objs: Vec<&str> = req.iter().map(|x| x.object.as_str()).collect();
    assert_eq!(objs, vec!["1", "2"]);
}

#[test]
fn mock_amounts_by_object_with_default() {
    let mut mock = MockProvider::default();
    mock.balances.push(("1001".to_string(), d("5")));
    let k = |o: &str| BalanceKey { kind: FetchKind::BeginBalance, period: "P".into(), org: "O".into(), object: o.into() };
    let got = mock.batch_balance(&vec![k("1001"), k("9")]);
    assert!(got[0].1.eq_val(&d("5")));
    assert!(got[1].1.eq_val(&d("1234")));
    assert_eq!(got[1].0.object, "9");
}

#[test]
fn cycle_message_names_the_cut_cell() {
    let snap = snapshot(vec![cell("C5", Some("C6 + 1"), None), cell("C6", Some("C5 + 1"), None)], vec![]);
    let out = run_mock(&snap);
    assert_eq!(out.errors, vec!["循环引用: BS!C5 (HQ/2026-06)".to_string()]);
    assert_eq!(out.error_count, 2);
    assert!(out.cells.iter().all(|c| c.value.is_error() && c.status == "error"));
}
