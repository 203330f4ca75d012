use cmx_report::layout::{resolve_cell_ids, CellIn, IdRef};
use cmx_report::api::{default_true, parse_codes, require_ctx, JobParamError};
use cmx_report::layout::{
    business_key, content_rev, layout_conflict, layout_content, layout_doc, region_or_default, resolve_or_reuse,
    to_hex, IdHint, LayoutError,
};
use cmx_report::pages::{page_window, source_abs, source_type_from_rel};
use cmx_report::store::{
    binding_id, col_letter_of, dict_record, flist_record, float_source_plan, is_col_float, parse_hier_dims,
    sample_hier_records, sample_records, FloatKind, FloatSource, FloatSourceError,
};

fn fnv(s: &str) -> u64 {
    let mut h: u64 = 0xcbf2_9ce4_8422_2325;
    for b in s.as_bytes() {
        h ^= u64::from(*b);
        h = h.wrapping_mul(0x0000_0100_0000_01b3);
    }
    h
}

#[test]
fn column_letters_fallback() {
    assert_eq!(col_letter_of(0), "A");
    assert_eq!(col_letter_of(25), "Z");
    assert_eq!(col_letter_of(26), "AA");
    assert_eq!(col_letter_of(701), "ZZ");
    assert_eq!(col_letter_of(702), "AAA");
}

#[test]
fn float_kind_tables() {
    assert_eq!(FloatKind::Row.table(), "cr_report_float_row");
    assert_eq!(FloatKind::Col.table(), "cr_report_float_col");
    assert_eq!(FloatKind::Row.type_field(), ("row_type", "detail"));
    assert_eq!(FloatKind::Col.type_field(), ("col_type", "data"));
}

#[test]
fn column_float_detection() {
    assert!(is_col_float(" Sample-Cols "));
    assert!(is_col_float("dict:cr_acct_calendar; AXIS=col"));
    assert!(!is_col_float("sample"));
    assert!(!is_col_float("axis=row;x"));
}

#[test]
fn hierarchy_dims_from_source() {
    assert_eq!(parse_hier_dims("SAMPLE-HIER"), Some(vec!["region".to_string(), "cust_code".to_string()]));
    assert_eq!(parse_hier_dims("flist:ar_cust; hier= region , ,cust_code"), Some(vec!["region".to_string(), "cust_code".to_string()]));
    assert_eq!(parse_hier_dims("flist:ar_cust;hier= , "), None);
    assert_eq!(parse_hier_dims("sample"), None);
    assert_eq!(parse_hier_dims("hier=a;hier=b"), Some(vec!["a".to_string()]));
}

#[test]
fn binding_ids_are_stable_fnv_hex() {
    let a = binding_id("gl.balance", None);
    assert_eq!(a, format!("rsb_{:016x}", fnv("gl.balance|__default__")));
    let b = binding_id("gl.balance", Some("ORG1"));
    assert_eq!(b, format!("rsb_{:016x}", fnv("gl.balance|ORG1")));
    assert_ne!(a, b);
    assert_eq!(a.len(), 20);
    assert_eq!(binding_id("gl.balance", None), a);
}

#[test]
fn float_sources_planned() {
    assert_eq!(float_source_plan(""), Ok(FloatSource::Sample));
    assert_eq!(float_source_plan(" SAMPLE "), Ok(FloatSource::Sample));
    assert_eq!(float_source_plan("sample-hier"), Ok(FloatSource::SampleHier));
    assert_eq!(float_source_plan("flist:ar_cust"), Ok(FloatSource::Flist { object: "ar_cust".into(), top: 10 }));
    assert_eq!(float_source_plan("flist: ar_cust ?x=1&top= 25"), Ok(FloatSource::Flist { object: "ar_cust".into(), top: 25 }));
    assert_eq!(float_source_plan("flist:ar_cust?top=9999"), Ok(FloatSource::Flist { object: "ar_cust".into(), top: 500 }));
    assert_eq!(float_source_plan("flist:ar_cust?top=0"), Ok(FloatSource::Flist { object: "ar_cust".into(), top: 1 }));
    assert_eq!(float_source_plan("flist:ar_cust?top=abc"), Ok(FloatSource::Flist { object: "ar_cust".into(), top: 10 }));
    assert_eq!(float_source_plan("flist:ap_vendor"), Err(FloatSourceError::UnsupportedFlist("ap_vendor".into())));
    assert_eq!(
        float_source_plan("dict:cr_consol_org"),
        Ok(FloatSource::Dict {
            table: "cr_consol_org".into(),
            key_field: "code".into(),
            label_field: "name".into(),
            dim: "org_code".into()
        })
    );
    assert_eq!(
        float_source_plan("dict:cr_acct_calendar?x"),
        Ok(FloatSource::Dict {
            table: "cr_acct_calendar".into(),
            key_field: "code".into(),
            label_field: "name".into(),
            dim: "period_code".into()
        })
    );
    assert_eq!(float_source_plan("dict:users"), Err(FloatSourceError::UnsupportedDict("users".into())));
    assert_eq!(float_source_plan("http://x"), Err(FloatSourceError::Unparsable("http://x".into())));
}

#[test]
fn built_in_records() {
    let s = sample_records();
    assert_eq!(s.len(), 5);
    assert_eq!(s[0].label, "上海A公司");
    assert_eq!(s[0].dims, vec![("cust_code".to_string(), "C001".to_string())]);
    let h = sample_hier_records();
    assert_eq!(h[3].dims, vec![("region".to_string(), "华北".to_string()), ("cust_code".to_string(), "C004".to_string())]);
    assert_eq!(flist_record("42").label, "客户 42");
    assert_eq!(dict_record("org_code", "G1", None).label, "G1");
    assert_eq!(dict_record("org_code", "G1", Some("集团")).label, "集团");
}

#[test]
fn layout_document_decoded_and_hashed() {
    let d = layout_doc("aGVsbG8=", None, None).unwrap();
    assert_eq!(d.bytes, b"hello".to_vec());
    assert_eq!(d.file_size, 5);
    assert_eq!(d.content_hash, "2cf24dba5fb0a30e26e83b2ac5b9e29e1b161e5c1fa7425e73043362938b9824");
    assert_eq!(d.doc_format, "ssjson");
    assert_eq!(d.mime_type, "application/json");
    let e = layout_doc("aGVsbG8=", Some("xlsx"), Some("application/zip")).unwrap();
    assert_eq!(e.doc_format, "xlsx");
    assert_eq!(e.mime_type, "application/zip");
    assert_eq!(layout_doc("not base64!", None, None).unwrap_err(), LayoutError::BadBase64);
}

#[test]
fn layout_content_is_standard_base64() {
    assert_eq!(layout_content(b""), "");
    assert_eq!(layout_content(b"h"), "aA==");
    assert_eq!(layout_content(b"he"), "aGU=");
    assert_eq!(layout_content(b"hello"), "aGVsbG8=");
    assert_eq!(layout_content(&[0xff, 0xfe, 0xfd]), "//79");
}

#[test]
fn hex_of_bytes() {
    assert_eq!(to_hex(&[0x00, 0x0f, 0xa0, 0xff]), "000fa0ff");
}

#[test]
fn optimistic_lock() {
    assert!(layout_conflict(Some("abc"), Some("abd")));
    assert!(!layout_conflict(Some("abc"), Some("abc")));
    assert!(!layout_conflict(Some("abc"), None));
    assert!(!layout_conflict(Some(""), Some("x")));
    assert!(!layout_conflict(None, Some("x")));
}

#[test]
fn page_revision_is_xxh64_hex() {
    let src = "export default {}";
    assert_eq!(content_rev(src.as_bytes()), format!("{:016x}", xxhash_rust::xxh64::xxh64(src.as_bytes(), 0)));
    assert_ne!(content_rev(b"a"), content_rev(b"b"));
}

#[test]
fn ids_reused_by_business_key() {
    let reuse = vec![("S1|R1|row1".to_string(), 77i64)];
    assert_eq!(resolve_or_reuse(&IdHint::Num(Some(5)), &reuse, "S1|R1|row1"), Some(5));
    assert_eq!(resolve_or_reuse(&IdHint::Text("123".into()), &reuse, "S1|R1|row1"), Some(123));
    assert_eq!(resolve_or_reuse(&IdHint::Text("t:abc".into()), &reuse, "S1|R1|row1"), Some(77));
    assert_eq!(resolve_or_reuse(&IdHint::Text("-3".into()), &reuse, "S1|R1|row1"), Some(77));
    assert_eq!(resolve_or_reuse(&IdHint::Missing, &reuse, "S1|R1|other"), None);
    assert_eq!(resolve_or_reuse(&IdHint::Missing, &reuse, ""), None);
    assert_eq!(business_key("S1", "R1", "row1"), "S1|R1|row1");
    assert_eq!(region_or_default(Some("")), "__default__");
    assert_eq!(region_or_default(None), "__default__");
    assert_eq!(region_or_default(Some("R2")), "R2");
}

#[test]
fn page_sources_stay_inside() {
    assert_eq!(source_abs("rpt/design.js"), Some(vec!["rpt".to_string(), "design.js".to_string()]));
    assert_eq!(source_abs("../etc/passwd"), None);
    assert_eq!(source_abs("a//b"), None);
    assert_eq!(source_abs(""), None);
    assert_eq!(source_type_from_rel("x/Page.MJS"), "js");
    assert_eq!(source_type_from_rel("x/page.htm"), "html");
    assert_eq!(source_type_from_rel("x/page.css"), "");
}

#[test]
fn page_windows() {
    assert_eq!(page_window(120, None, None), (1, 50, 0, 50));
    assert_eq!(page_window(120, Some(3), None), (3, 50, 100, 120));
    assert_eq!(page_window(120, Some(4), Some(50)), (4, 50, 120, 120));
    assert_eq!(page_window(10, Some(0), Some(0)), (1, 1, 0, 1));
}

#[test]
fn job_parameters() {
    assert_eq!(require_ctx(Some(" O1 "), Some("2026-01"), None), Ok(("O1".to_string(), "2026-01".to_string(), String::new())));
    assert_eq!(require_ctx(Some("  "), Some("2026-01"), None), Err(JobParamError::MissingOrg));
    assert_eq!(require_ctx(Some("O1"), None, Some("V1")), Err(JobParamError::MissingPeriod));
    assert_eq!(parse_codes(&vec![" A ".to_string(), "".to_string(), "B".to_string()]), Some(vec!["A".to_string(), "B".to_string()]));
    assert_eq!(parse_codes(&vec!["  ".to_string()]), None);
    assert!(default_true());
}

#[test]
fn cell_mapping_ids_reuse_and_resolve_temporary_refs() {
    let temp = vec![("r-new".to_string(), 501), ("c-new".to_string(), 601), ("r-new".to_string(), 502)];
    let reuse = vec![("S1|__default__|B2".to_string(), 77)];
    let cells = vec![
        CellIn { sheet: Some("S1".into()), region: None, cell_ref: Some("B2".into()), row: IdRef::Temp("r-new".into()), col: IdRef::Num(Some(9)) },
        CellIn { sheet: Some("S1".into()), region: Some("R".into()), cell_ref: None, row: IdRef::Temp("zz".into()), col: IdRef::Absent },
        CellIn { sheet: None, region: Some(String::new()), cell_ref: Some("C3".into()), row: IdRef::Num(None), col: IdRef::Temp("c-new".into()) },
    ];
    let out = resolve_cell_ids(&cells, &temp, &reuse);
    assert_eq!(out.len(), 3);
    assert_eq!(out[0].id, Some(77));
    assert_eq!(out[0].code, "B2");
    assert_eq!(out[0].region, "__default__");
    assert_eq!((out[0].row_id, out[0].col_id), (502, 9));
    assert_eq!(out[1].id, None);
    assert_eq!(out[1].code, "CM2");
    assert_eq!(out[1].region, "R");
    assert_eq!((out[1].row_id, out[1].col_id), (0, 0));
    assert_eq!(out[2].id, None);
    assert_eq!(out[2].code, "C3");
    assert_eq!((out[2].row_id, out[2].col_id), (0, 601));
}
