use cmx_report::decimal::{dec_parse, Dec};
use cmx_report::formula::ast::{parse, Node};
use cmx_report::formula::cells::{col_to_index, expand_range, index_to_col, is_cell_ref, split_cell_ref};
use cmx_report::formula::eval::{addr_key, EvalCtx};
use cmx_report::formula::eval_standalone;
use cmx_report::formula::functions::all_functions;
use cmx_report::formula::registry::{p, p_opt, FnCategory, ParamKind};
use cmx_report::formula::report::{report_key, CellInput, ReportSnapshot};
use cmx_report::formula::value::FValue;

fn d(s: &str) -> Dec {
    dec_parse(s).unwrap()
}

fn ctx() -> EvalCtx {
    EvalCtx {
        org: "ORG1".to_string(),
        period: "2026-03".to_string(),
        periods: vec!["2026-01".to_string(), "2026-02".to_string(), "2026-03".to_string()],
        org_parent: vec![("ORG1".to_string(), "GROUP".to_string())],
    }
}

#[test]
fn cell_ref_recognition() {
    assert!(is_cell_ref("C5"));
    assert!(is_cell_ref("AA100"));
    assert!(!is_cell_ref("C"));
    assert!(!is_cell_ref("5"));
    assert!(!is_cell_ref("C5D"));
    assert!(!is_cell_ref("a.b"));
}

#[test]
fn negative_period_literal() {
    let n = parse("QM(-1)").unwrap();
    match n {
        Node::Call(name, args) => {
            assert_eq!(name, "QM");
            assert_eq!(args[0], Node::Num(Dec::from_i64(-1)));
        },
        _ => panic!("expected call"),
    }
}

#[test]
fn subtraction_still_works() {
    let n = parse("C5 - C6").unwrap();
    assert!(matches!(n, Node::Binary(op, _, _) if op == "-"));
}

#[test]
fn org_ref_and_string_arg() {
    let n = parse("QM(0, @current, '1001')").unwrap();
    match n {
        Node::Call(_, args) => {
            assert_eq!(args[0], Node::Num(Dec::zero()));
            assert_eq!(args[1], Node::OrgRef("current".into()));
            assert_eq!(args[2], Node::Str("1001".into()));
        },
        _ => panic!(),
    }
}

#[test]
fn range_and_col_math() {
    let n = parse("SUM(D3:D7)").unwrap();
    match n {
        Node::Call(_, args) => assert_eq!(args[0], Node::Range("D3".into(), "D7".into())),
        _ => panic!(),
    }
    assert_eq!(col_to_index("A"), 0);
    assert_eq!(col_to_index("AA"), 26);
    assert_eq!(index_to_col(0), "A");
    assert_eq!(index_to_col(26), "AA");
    assert_eq!(expand_range("C5", "D6"), vec!["C5", "D5", "C6", "D6"]);
}

#[test]
fn registry_has_first_batch() {
    let fns = all_functions();
    let names: Vec<&str> = fns.iter().map(|f| f.name).collect();
    for want in ["QM", "QC", "FS", "JE", "REF", "SUM", "IF", "ROUND", "ABS", "MIN", "MAX"] {
        assert!(names.contains(&want), "missing {want}");
    }
}

#[test]
fn split_cell_ref_parts() {
    assert_eq!(split_cell_ref("AB12"), Some(("AB".to_string(), 12)));
    assert_eq!(split_cell_ref("12"), None);
}

#[test]
fn category_names() {
    assert_eq!(FnCategory::Fetch.as_str(), "fetch");
    assert_eq!(FnCategory::Math.as_str(), "math");
    let q = p("x", ParamKind::Expr, "h");
    assert!(q.required && q.default.is_none());
    let o = p_opt("y", ParamKind::Period, Some("0"), "h");
    assert!(!o.required && o.default == Some("0"));
}

#[test]
fn standalone_arithmetic_and_precedence() {
    let v = eval_standalone("1 + 2 * 3", &ctx()).unwrap();
    assert_eq!(v, FValue::Num(d("7")));
    let w = eval_standalone("(1 + 2) * 3", &ctx()).unwrap();
    assert_eq!(w, FValue::Num(d("9")));
}

#[test]
fn standalone_fetches_and_cells_read_zero() {
    let v = eval_standalone("QM(0,@current,'1001') + C5", &ctx()).unwrap();
    assert_eq!(v, FValue::Num(d("0")));
}

#[test]
fn standalone_if_and_text() {
    let v = eval_standalone("IF(2 > 1, 'yes', 'no')", &ctx()).unwrap();
    assert_eq!(v, FValue::Str("yes".to_string()));
    let t = eval_standalone("'a' + 'b'", &ctx()).unwrap();
    assert_eq!(t, FValue::Str("ab".to_string()));
}

#[test]
fn standalone_unknown_function_is_error_value() {
    let v = eval_standalone("FOO(1)", &ctx()).unwrap();
    assert!(v.is_error());
}

#[test]
fn standalone_parse_error() {
    assert!(eval_standalone("(1 + 2", &ctx()).is_err());
    assert!(eval_standalone("1 2", &ctx()).is_err());
}

#[test]
fn relative_period_resolution() {
    let c = ctx();
    assert_eq!(c.resolve_period_offset(-1), "2026-02");
    assert_eq!(c.resolve_period_offset(0), "2026-03");
    assert_eq!(c.resolve_period_offset(-5), "2026-03");
}

#[test]
fn memo_keys() {
    assert_eq!(addr_key("R", "V1", "O", "P", "C5"), "R|V1|O|P|C5");
    assert_eq!(report_key("R", "V1", "O", "P"), "R|V1|O|P");
}

fn cell(r: &str, f: Option<&str>, e: Option<&str>) -> CellInput {
    CellInput {
        cell_ref: r.to_string(),
        element_code: e.map(|x| x.to_string()),
        cell_formula: f.map(|x| x.to_string()),
        stored: None,
        is_manual: false,
    }
}

#[test]
fn element_formula_is_inherited_and_cell_formula_wins() {
    let snap = ReportSnapshot {
        report: "R".into(),
        version: "V1".into(),
        org: "O".into(),
        period: "P".into(),
        cells: vec![cell("C5", None, Some("CASH")), cell("C6", Some("100"), Some("CASH")), cell("C7", Some("  "), None)],
        element_formulas: vec![("CASH".to_string(), "QM(0,@current,'1001')".to_string())],
    };
    let c5 = snap.find_cell("C5").unwrap();
    assert_eq!(snap.effective_formula(c5), Some("QM(0,@current,'1001')".to_string()));
    let c6 = snap.find_cell("C6").unwrap();
    assert_eq!(snap.effective_formula(c6), Some("100".to_string()));
    let c7 = snap.find_cell("C7").unwrap();
    assert_eq!(snap.effective_formula(c7), None);
    assert!(snap.find_cell("Z9").is_none());
}

#[test]
fn split_cell_ref_rejects_signs_and_non_digits() {
    assert_eq!(split_cell_ref("A+5"), None);
    assert_eq!(split_cell_ref("A-5"), None);
    assert_eq!(split_cell_ref("C5D"), None);
    assert_eq!(split_cell_ref("C"), None);
    assert_eq!(split_cell_ref("5"), None);
    assert_eq!(split_cell_ref("c7"), Some(("C".to_string(), 7)));
}

#[test]
fn catalog_orders_by_category_then_name() {
    let cat = cmx_report::formula::functions::catalog();
    assert_eq!(cat.len(), 15);
    for w in cat.windows(2) {
        let a = (w[0].category.as_str(), w[0].name);
        let b = (w[1].category.as_str(), w[1].name);
        assert!(a <= b, "{a:?} listed before {b:?}");
    }
    assert_eq!(cat[0].category.as_str(), "agg");
}

#[test]
fn catalog_json_serializes() {
    let mut fns = Vec::new();
    for f in cmx_report::formula::functions::catalog() {
        let mut o = serde_json::Map::new();
        o.insert("name".to_string(), serde_json::Value::String(f.name.to_string()));
        o.insert("category".to_string(), serde_json::Value::String(f.category.as_str().to_string()));
        fns.push(serde_json::Value::Object(o));
    }
    let mut top = serde_json::Map::new();
    top.insert("functions".to_string(), serde_json::Value::Array(fns));
    let j = serde_json::Value::Object(top);
    assert!(j.get("functions").and_then(|f| f.as_array()).is_some());
    let s = serde_json::to_string(&j).unwrap();
    assert!(s.contains("\"QM\""));
    assert!(s.contains("\"category\":\"fetch\""));
}

#[test]
fn split_cell_ref_row_is_the_digit_value() {
    assert_eq!(split_cell_ref("c007"), Some(("C".to_string(), 7)));
    assert_eq!(split_cell_ref("Zz4294967295"), Some(("ZZ".to_string(), 4294967295)));
    assert_eq!(split_cell_ref("A4294967296"), None);
    assert_eq!(split_cell_ref("A1 "), None);
}
