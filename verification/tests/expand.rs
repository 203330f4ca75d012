use cmx_report::expand::{find_row_of, is_float_region, template_phys_row, total_row_phys, use_stored_records, RegionIn, RowIn};
use cmx_report::expand::{
    build_template, col_index_to_letter, dim_key_path, expand_area, expand_columns, expand_hierarchy,
    expand_template, hier_template_for, is_instance_row_id, stable_instance_row_id, substitute, CellMapEntry,
    ColFloatTemplate, ColInfo, FloatTemplate, HierLevel, HierTemplate, InstanceRow, SourceRecord, SubstCtx,
    INSTANCE_ID_BASE,
};
use cmx_report::expand::{col_template, ColCellMap, LayoutCol};
use std::collections::{HashMap, HashSet};

const MAX_SAFE: i64 = 9_007_199_254_740_991;

fn rec(label: &str, dims: &[(&str, &str)]) -> SourceRecord {
    SourceRecord {
        label: label.to_string(),
        dims: dims.iter().map(|(k, v)| (k.to_string(), v.to_string())).collect(),
        cells: Vec::new(),
    }
}

#[test]
fn stable_id_is_js_safe_and_in_reserved_band() {
    for tid in [1i64, 9001, 4_500_000_000_000_000] {
        for path in ["region=华东;cust=C001", "cust=C999", ""] {
            let id = stable_instance_row_id(tid, path);
            assert!(id >= INSTANCE_ID_BASE, "in the reserved band: {id}");
            assert!(id <= MAX_SAFE, "JS safe: {id}");
        }
    }
}

#[test]
fn stored_cells_override_template_formula() {
    let tpl = FloatTemplate {
        template_row_id: 9001,
        name_tpl: "{{label}}".into(),
        cell_tpls: vec![
            ("B".into(), "QM(0,@current,'{{cust_code}}')".into()),
            ("C".into(), "QC(0,@current,'{{cust_code}}')".into()),
            ("D".into(), "=B{{r}}/B{{total}}".into()),
        ],
    };
    let mut r = rec("上海A", &[("cust_code", "C001")]);
    r.cells = vec![("B".to_string(), "2600".to_string())];
    let rows = expand_template(&tpl, &[r], 2, Some(1));
    assert_eq!(rows[0].cells[0], ("B".into(), "2600".into()));
    assert_eq!(rows[0].cells[1], ("C".into(), "QC(0,@current,'C001')".into()));
    assert_eq!(rows[0].cells[2], ("D".into(), "=B2/B1".into()));
}

#[test]
fn stable_id_is_deterministic() {
    let a = stable_instance_row_id(9001, "region=华东;cust=C001");
    let b = stable_instance_row_id(9001, "region=华东;cust=C001");
    assert_eq!(a, b);
}

#[test]
fn stable_id_differs_by_input() {
    let a = stable_instance_row_id(9001, "cust=C001");
    let b = stable_instance_row_id(9001, "cust=C002");
    let c = stable_instance_row_id(9002, "cust=C001");
    assert_ne!(a, b);
    assert_ne!(a, c);
}

#[test]
fn stable_id_disjoint_from_pk52_band() {
    for real in [0i64, 1, 4_503_599_627_370_495] {
        assert!(real < INSTANCE_ID_BASE);
        assert!(!is_instance_row_id(real));
    }
    let inst = stable_instance_row_id(9001, "cust=C001");
    assert!(inst >= INSTANCE_ID_BASE);
    assert!(is_instance_row_id(inst));
}

#[test]
fn substitute_dims_and_anchors() {
    let dims = vec![("cust_code".to_string(), "C001".to_string())];
    let ctx = SubstCtx {
        dims: &dims,
        label: "上海A",
        phys_row: Some(3),
        total_row: Some(1),
        parent_row: Some(2),
        col_letter: None,
    };
    assert_eq!(substitute("QM(0,@current,'{{cust_code}}')", &ctx), "QM(0,@current,'C001')");
    assert_eq!(substitute("=B{{r}}/B{{total}}", &ctx), "=B3/B1");
    assert_eq!(substitute("=SUM(C{{parent}}:C{{r}})", &ctx), "=SUM(C2:C3)");
    assert_eq!(substitute("{{label}}", &ctx), "上海A");
}

#[test]
fn substitute_unknown_and_unclosed() {
    let ctx = SubstCtx { dims: &[], label: "", phys_row: None, total_row: None, parent_row: None, col_letter: None };
    assert_eq!(substitute("x={{nope}}", &ctx), "x=");
    assert_eq!(substitute("a{{b", &ctx), "a{{b");
    assert_eq!(substitute("纯中文无占位", &ctx), "纯中文无占位");
}

#[test]
fn expand_produces_n_rows_with_resolved_formulas() {
    let tpl = FloatTemplate {
        template_row_id: 9001,
        name_tpl: "{{label}}".into(),
        cell_tpls: vec![
            ("B".into(), "QM(0,@current,'{{cust_code}}')".into()),
            ("D".into(), "=B{{r}}/B{{total}}".into()),
        ],
    };
    let records = vec![
        rec("上海A", &[("cust_code", "C001")]),
        rec("杭州B", &[("cust_code", "C002")]),
        rec("南京C", &[("cust_code", "C003")]),
    ];
    let rows = expand_template(&tpl, &records, 2, Some(1));
    assert_eq!(rows.len(), 3);
    assert_eq!(rows[0].name, "上海A");
    assert_eq!(rows[0].phys_row, 2);
    assert_eq!(rows[0].cells[0], ("B".into(), "QM(0,@current,'C001')".into()));
    assert_eq!(rows[0].cells[1], ("D".into(), "=B2/B1".into()));
    assert_eq!(rows[2].name, "南京C");
    assert_eq!(rows[2].phys_row, 4);
    assert_eq!(rows[2].cells[1], ("D".into(), "=B4/B1".into()));
    assert_eq!(rows[0].row_id, stable_instance_row_id(9001, "cust_code=C001"));
    assert_ne!(rows[0].row_id, rows[1].row_id);
}

fn hier_tpl() -> HierTemplate {
    HierTemplate {
        leaf: FloatTemplate {
            template_row_id: 9001,
            name_tpl: "{{label}}".into(),
            cell_tpls: vec![
                ("B".into(), "QM(0,@current,'{{cust_code}}')".into()),
                ("D".into(), "=B{{r}}/B{{total}}".into()),
            ],
        },
        levels: vec![
            HierLevel { dim: "region".into(), rollup: "subtotal".into(), subtotal_name_tpl: "{{label}} 小计".into() },
            HierLevel { dim: "cust_code".into(), rollup: "none".into(), subtotal_name_tpl: String::new() },
        ],
        grand_total: "total".into(),
        grand_total_name: "应收账款合计".into(),
        rollup_cols: vec!["B".into(), "C".into()],
    }
}

#[test]
fn hierarchy_layout_total_subtotal_detail() {
    let records = vec![
        rec("上海A", &[("region", "华东"), ("cust_code", "C001")]),
        rec("杭州B", &[("region", "华东"), ("cust_code", "C002")]),
        rec("北京D", &[("region", "华北"), ("cust_code", "C004")]),
    ];
    let rows = expand_hierarchy(&hier_tpl(), &records, 1);
    assert_eq!(rows.len(), 6);
    let by_phys: HashMap<i64, &InstanceRow> = rows.iter().map(|r| (r.phys_row, r)).collect();
    assert_eq!(by_phys[&1].row_type, "total");
    assert_eq!(by_phys[&1].name, "应收账款合计");
    assert_eq!(by_phys[&2].row_type, "subtotal");
    assert_eq!(by_phys[&2].name, "华东 小计");
    assert_eq!(by_phys[&3].row_type, "float");
    assert_eq!(by_phys[&3].name, "上海A");
    assert_eq!(by_phys[&5].row_type, "subtotal");
    assert_eq!(by_phys[&5].name, "华北 小计");
    assert_eq!(by_phys[&6].name, "北京D");
}

#[test]
fn hierarchy_rollup_sum_ranges_are_relocated() {
    let records = vec![
        rec("上海A", &[("region", "华东"), ("cust_code", "C001")]),
        rec("杭州B", &[("region", "华东"), ("cust_code", "C002")]),
        rec("北京D", &[("region", "华北"), ("cust_code", "C004")]),
    ];
    let rows = expand_hierarchy(&hier_tpl(), &records, 1);
    let by_phys: HashMap<i64, &InstanceRow> = rows.iter().map(|r| (r.phys_row, r)).collect();
    let sub_hd = by_phys[&2];
    assert_eq!(sub_hd.cells[0], ("B".into(), "=SUM(B3:B4)".into()));
    assert_eq!(sub_hd.cells[1], ("C".into(), "=SUM(C3:C4)".into()));
    let sub_hb = by_phys[&5];
    assert_eq!(sub_hb.cells[0], ("B".into(), "=SUM(B6:B6)".into()));
    let total = by_phys[&1];
    assert_eq!(total.cells[0], ("B".into(), "=SUM(B3:B6)".into()));
    assert_eq!(total.cells[1], ("C".into(), "=SUM(C3:C6)".into()));
    assert_eq!(by_phys[&3].cells[1], ("D".into(), "=B3/B1".into()));
}

#[test]
fn hierarchy_parent_and_level_wiring() {
    let records = vec![
        rec("上海A", &[("region", "华东"), ("cust_code", "C001")]),
        rec("北京D", &[("region", "华北"), ("cust_code", "C004")]),
    ];
    let rows = expand_hierarchy(&hier_tpl(), &records, 1);
    let by_phys: HashMap<i64, &InstanceRow> = rows.iter().map(|r| (r.phys_row, r)).collect();
    assert_eq!(by_phys[&1].level_no, 1);
    assert_eq!(by_phys[&2].level_no, 2);
    assert_eq!(by_phys[&3].level_no, 3);
    assert_eq!(by_phys[&3].parent_row, Some(2));
    assert_eq!(by_phys[&2].parent_row, Some(1));
    assert_eq!(by_phys[&1].parent_row, None);
    let ids: HashSet<i64> = rows.iter().map(|r| r.row_id).collect();
    assert_eq!(ids.len(), rows.len());
}

#[test]
fn hierarchy_ids_stable_across_calls() {
    let records = vec![
        rec("上海A", &[("region", "华东"), ("cust_code", "C001")]),
        rec("北京D", &[("region", "华北"), ("cust_code", "C004")]),
    ];
    let a = expand_hierarchy(&hier_tpl(), &records, 1);
    let b = expand_hierarchy(&hier_tpl(), &records, 1);
    let ida: Vec<i64> = a.iter().map(|r| r.row_id).collect();
    let idb: Vec<i64> = b.iter().map(|r| r.row_id).collect();
    assert_eq!(ida, idb);
}

#[test]
fn col_index_to_letter_maps() {
    assert_eq!(col_index_to_letter(0), "A");
    assert_eq!(col_index_to_letter(2), "C");
    assert_eq!(col_index_to_letter(25), "Z");
    assert_eq!(col_index_to_letter(26), "AA");
    assert_eq!(col_index_to_letter(27), "AB");
}

fn col_tpl() -> ColFloatTemplate {
    ColFloatTemplate {
        template_col_id: 7001,
        header_tpl: "{{label}}".into(),
        row_tpls: vec![(2, "QM('{{period_code}}',@current,'6001')".into()), (3, "={{c}}2/B2".into())],
    }
}

#[test]
fn columns_expand_transposed_with_c_anchor() {
    let records = vec![
        rec("2026-01", &[("period_code", "2026-01")]),
        rec("2026-02", &[("period_code", "2026-02")]),
        rec("2026-03", &[("period_code", "2026-03")]),
    ];
    let cols = expand_columns(&col_tpl(), &records, 2);
    assert_eq!(cols.len(), 3);
    assert_eq!(cols[0].col_letter, "C");
    assert_eq!(cols[1].col_letter, "D");
    assert_eq!(cols[2].col_letter, "E");
    assert_eq!(cols[0].header, "2026-01");
    assert_eq!(cols[0].cells[0], (2, "QM('2026-01',@current,'6001')".into()));
    assert_eq!(cols[2].cells[0], (2, "QM('2026-03',@current,'6001')".into()));
    assert_eq!(cols[0].cells[1], (3, "=C2/B2".into()));
    assert_eq!(cols[1].cells[1], (3, "=D2/B2".into()));
    assert_eq!(cols[2].cells[1], (3, "=E2/B2".into()));
}

#[test]
fn columns_stable_and_js_safe_ids() {
    let records = vec![rec("2026-01", &[("period_code", "2026-01")]), rec("2026-02", &[("period_code", "2026-02")])];
    let a = expand_columns(&col_tpl(), &records, 2);
    let b = expand_columns(&col_tpl(), &records, 2);
    assert_eq!(a.iter().map(|c| c.col_id).collect::<Vec<_>>(), b.iter().map(|c| c.col_id).collect::<Vec<_>>());
    for c in &a {
        assert!(c.col_id >= INSTANCE_ID_BASE);
        assert!(c.col_id <= MAX_SAFE);
    }
    assert_ne!(a[0].col_id, a[1].col_id);
}

#[test]
fn key_path_joins_dims_in_order() {
    let dims = vec![("region".to_string(), "华东".to_string()), ("cust".to_string(), "C001".to_string())];
    assert_eq!(dim_key_path(&dims), "region=华东;cust=C001");
}

#[test]
fn template_from_layout_cells() {
    let cols = vec![
        ColInfo { id: Some(11), col_letter: Some("B".to_string()) },
        ColInfo { id: Some(12), col_letter: None },
        ColInfo { id: Some(13), col_letter: Some("D".to_string()) },
    ];
    let cm = vec![
        CellMapEntry { row_id: Some(9001), col_id: Some(11), formula: Some("QM(0,@current,'{{cust_code}}')".into()) },
        CellMapEntry { row_id: Some(9001), col_id: Some(12), formula: Some("X".into()) },
        CellMapEntry { row_id: Some(9002), col_id: Some(13), formula: Some("Y".into()) },
        CellMapEntry { row_id: Some(9001), col_id: Some(13), formula: Some(String::new()) },
        CellMapEntry { row_id: Some(9001), col_id: Some(13), formula: Some("=B{{r}}/B{{total}}".into()) },
    ];
    let t = build_template(9001, Some(""), &cols, &cm);
    assert_eq!(t.template_row_id, 9001);
    assert_eq!(t.name_tpl, "{{label}}");
    assert_eq!(
        t.cell_tpls,
        vec![
            ("B".to_string(), "QM(0,@current,'{{cust_code}}')".to_string()),
            ("D".to_string(), "=B{{r}}/B{{total}}".to_string())
        ]
    );
}

#[test]
fn grouped_area_uses_declared_dims() {
    let tpl = FloatTemplate {
        template_row_id: 9001,
        name_tpl: "{{label}}".into(),
        cell_tpls: vec![("B".into(), "QM(0,@current,'{{cust_code}}')".into()), ("D".into(), "=B{{r}}/B{{total}}".into())],
    };
    let h = hier_template_for(&tpl, &vec!["region".to_string(), "cust_code".to_string()]);
    assert_eq!(h.levels.len(), 2);
    assert_eq!(h.levels[0].rollup, "subtotal");
    assert_eq!(h.levels[1].rollup, "none");
    assert_eq!(h.rollup_cols, vec!["B".to_string()]);
    assert_eq!(h.grand_total_name, "合计");
    let records = vec![
        rec("上海A", &[("region", "华东"), ("cust_code", "C001")]),
        rec("北京D", &[("region", "华北"), ("cust_code", "C004")]),
    ];
    let (rows, grouped) = expand_area(&tpl, &records, "x;hier=region,cust_code", 1, None);
    assert!(grouped);
    assert_eq!(rows.len(), 5);
    let (flat, grouped2) = expand_area(&tpl, &records, "sample", 2, Some(1));
    assert!(!grouped2);
    assert_eq!(flat.len(), 2);
    assert_eq!(flat[0].cells[1], ("D".into(), "=B2/B1".into()));
}

#[test]
fn col_template_sorts_row_formulas_stably() {
    let col = |id: i64, ty: &str, name: Option<&str>, no: Option<i64>| LayoutCol {
        id: Some(id),
        name: name.map(|s| s.to_string()),
        region_code: Some("R1".into()),
        sheet_code: Some("S1".into()),
        col_type: Some(ty.into()),
        col_no: no,
    };
    let cm = |id: i64, f: &str, r: &str| ColCellMap { col_id: Some(id), formula: Some(f.into()), cell_ref: Some(r.into()) };
    let cols = vec![col(7, "fixed", Some("A"), Some(1)), col(8, "float", None, None)];
    let map = vec![cm(8, "QM({{c}})", "C7"), cm(8, "B", "C5"), cm(8, "", "C3"), cm(9, "Z", "C2"), cm(8, "D", "c5"), cm(8, "E", "X")];
    let (t, ci) = col_template(&cols, &map, "R1", "S1", -3).unwrap();
    assert_eq!(t.template_col_id, 8);
    assert_eq!(t.header_tpl, "{{label}}");
    assert_eq!(t.row_tpls, vec![(5, "B".to_string()), (5, "D".to_string()), (7, "QM({{c}})".to_string())]);
    assert_eq!(ci, 0);
    assert!(col_template(&cols, &map, "R2", "S1", 0).is_none());
    let named = vec![col(3, "float", Some("{{label}} Q"), Some(4))];
    let (t2, ci2) = col_template(&named, &[], "R1", "S1", 9).unwrap();
    assert_eq!(t2.header_tpl, "{{label}} Q");
    assert!(t2.row_tpls.is_empty());
    assert_eq!(ci2, 4);
}

#[test]
fn floating_area_choice_template_row_and_total_row() {
    let reg = |rep: Option<i64>| RegionIn { is_repeatable: rep, region_code: Some("R1".into()), sheet_code: Some("S".into()), start_row: Some(4) };
    assert!(is_float_region(&reg(Some(1))));
    assert!(!is_float_region(&reg(Some(0))));
    assert!(!is_float_region(&reg(None)));
    let row = |region: &str, ty: &str, no: Option<i64>| RowIn {
        region_code: Some(region.into()),
        sheet_code: Some("S".into()),
        row_type: Some(ty.into()),
        row_no: no,
    };
    let rows = vec![row("R0", "float", Some(1)), row("R1", "total", Some(9)), row("R1", "float", Some(5)), row("R1", "total", Some(2))];
    assert_eq!(find_row_of(&rows, "R1", "S", "float"), Some(2));
    assert_eq!(find_row_of(&rows, "R2", "S", "float"), None);
    assert_eq!(template_phys_row(Some(5), Some(4)), 6);
    assert_eq!(template_phys_row(None, Some(4)), 4);
    assert_eq!(template_phys_row(None, Some(-3)), 1);
    assert_eq!(template_phys_row(None, None), 1);
    assert_eq!(total_row_phys(&rows, "R1", "S"), Some(10));
    let no_num = vec![row("R1", "total", None), row("R1", "total", Some(3))];
    assert_eq!(total_row_phys(&no_num, "R1", "S"), None);
    assert!(!use_stored_records(&Vec::new()));
}

#[test]
fn hierarchy_rows_take_consecutive_physical_rows() {
    let records = vec![
        rec("上海A", &[("region", "华东"), ("cust_code", "C001")]),
        rec("北京D", &[("region", "华北"), ("cust_code", "C004")]),
        rec("杭州B", &[("region", "华东"), ("cust_code", "C002")]),
    ];
    let rows = expand_hierarchy(&hier_tpl(), &records, 5);
    assert_eq!(rows.len(), 6);
    let phys: HashSet<i64> = rows.iter().map(|r| r.phys_row).collect();
    let want: HashSet<i64> = (5..11).collect();
    assert_eq!(phys, want);
    assert_eq!(rows.iter().filter(|r| r.row_type == "float").count(), 3);
    assert_eq!(rows.iter().filter(|r| r.row_type == "total").count(), 1);
    assert_eq!(rows[0].row_type, "total");
    assert_eq!(rows[0].phys_row, 5);
    assert_eq!(rows[0].parent_row, None);
}
