use cmx_report::consol::ownership::{effective_ownership, shareholding_inputs, try_effective_ownership, ShareRow};
use cmx_report::consol::notes::{nci_note, NoteRow};
use cmx_report::consol::recon::{adjustment_for, reconcile, status_counts, try_reconcile, IcDeclaration};
use cmx_report::consol::scope::{change_type_counts, diff_scope};
use cmx_report::consol::types::{ConsolMethod, ScopeNode};
use cmx_report::decimal::{dec_parse, dec_sub, Dec};

fn d(s: &str) -> Dec {
    dec_parse(s).unwrap()
}

#[test]
fn diff_scope_classifies_changes() {
    let node = |code: &str, method: ConsolMethod, own: &str| ScopeNode {
        code: code.into(),
        name: format!("{code}名"),
        parent: None,
        method,
        ownership: d(own),
        is_leaf: true,
        level: 2,
    };
    let prev = vec![node("A", ConsolMethod::Full, "1"), node("B", ConsolMethod::Full, "0.8"), node("C", ConsolMethod::Full, "1")];
    let curr = vec![
        node("A", ConsolMethod::Full, "1"),
        node("B", ConsolMethod::Full, "0.9"),
        node("D", ConsolMethod::Full, "1"),
        node("E", ConsolMethod::Full, "0.6"),
    ];
    let mut prev2 = prev.clone();
    prev2.push(node("E", ConsolMethod::Equity, "0.6"));
    let changes = diff_scope(&prev2, &curr, false);
    let by = |c: &str| changes.iter().find(|x| x.org_code == c).cloned();
    assert!(by("A").is_none());
    assert_eq!(by("B").unwrap().change_type, "ownership_up");
    assert_eq!(by("C").unwrap().change_type, "disposal");
    assert_eq!(by("D").unwrap().change_type, "first_time");
    assert_eq!(by("E").unwrap().change_type, "method_change");
    let all = diff_scope(&prev2, &curr, true);
    assert_eq!(all.iter().find(|x| x.org_code == "A").unwrap().change_type, "unchanged");
    let c = by("C").unwrap();
    assert_eq!(c.curr_ownership, d("0"));
    assert_eq!(c.prev_ownership, d("1"));
    assert!(c.curr_method.is_none());
}

#[test]
fn diff_scope_orders_codes_and_reports_decrease() {
    let node = |code: &str, own: &str| ScopeNode {
        code: code.into(),
        name: code.into(),
        parent: None,
        method: ConsolMethod::Full,
        ownership: d(own),
        is_leaf: true,
        level: 2,
    };
    let prev = vec![node("Z", "0.9"), node("M", "0.5"), node("A", "1")];
    let curr = vec![node("M", "0.5"), node("Z", "0.7"), node("B", "1"), node("A", "1.0")];
    let ch = diff_scope(&prev, &curr, true);
    let codes: Vec<&str> = ch.iter().map(|c| c.org_code.as_str()).collect();
    assert_eq!(codes, vec!["A", "B", "M", "Z"]);
    assert_eq!(ch[0].change_type, "unchanged");
    assert_eq!(ch[3].change_type, "ownership_down");
    assert_eq!(ch[1].prev_method, None);
    assert!(diff_scope(&[], &[], true).is_empty());
}

fn decl(entity: &str, partner: &str, ic_type: &str, direction: &str, amount: &str) -> IcDeclaration {
    IcDeclaration {
        entity: entity.into(),
        partner: partner.into(),
        ic_type: ic_type.into(),
        direction: direction.into(),
        amount: d(amount),
    }
}

#[test]
fn ic_reconcile_matched_diff_onesided() {
    let decls = vec![
        decl("A", "B", "debt", "receivable", "100"),
        decl("B", "A", "debt", "payable", "100"),
        decl("A", "C", "sales", "revenue", "200"),
        decl("C", "A", "sales", "cost", "180"),
        decl("B", "C", "debt", "receivable", "50"),
    ];
    let r = reconcile(&decls);
    assert_eq!(r.len(), 3);
    let ab = r.iter().find(|x| x.entity_a == "A" && x.entity_b == "B" && x.ic_type == "debt").unwrap();
    assert_eq!(ab.matched, d("100"));
    assert_eq!(ab.diff, d("0"));
    assert_eq!(ab.status, "matched");
    let ac = r.iter().find(|x| x.ic_type == "sales").unwrap();
    assert_eq!(ac.entity_a, "A");
    assert_eq!(ac.entity_b, "C");
    assert_eq!(ac.matched, d("180"));
    assert_eq!(ac.diff, d("20"));
    assert_eq!(ac.status, "diff");
    let bc = r.iter().find(|x| x.entity_a == "B" && x.ic_type == "debt").unwrap();
    assert_eq!(bc.entity_b, "C");
    assert_eq!(bc.matched, d("0"));
    assert_eq!(bc.status, "one_sided");
}

#[test]
fn ic_reconcile_orders_groups_and_skips_zero() {
    let decls = vec![
        decl("C", "B", "debt", "RECEIVABLE", "7"),
        decl("B", "A", "debt", "payable", "5"),
        decl("A", "B", "debt", "Ar", "2"),
        decl("A", "B", "debt", "receivable", "3"),
        decl("A", "D", "debt", "receivable", "0"),
    ];
    let r = reconcile(&decls);
    let order: Vec<(&str, &str)> = r.iter().map(|x| (x.entity_a.as_str(), x.entity_b.as_str())).collect();
    assert_eq!(order, vec![("A", "B"), ("C", "B")]);
    assert_eq!(r[0].a_amount, d("5"));
    assert_eq!(r[0].b_amount, d("5"));
    assert_eq!(r[0].status, "matched");
    assert_eq!(r[1].diff, d("7"));
    assert_eq!(r[1].status, "one_sided");
    assert!(try_reconcile(&[]).unwrap().is_empty());
    let big = "79228162514264337593543950335";
    let over = vec![decl("A", "B", "debt", "receivable", big), decl("A", "B", "debt", "receivable", big)];
    assert!(try_reconcile(&over).is_none());
}

fn close_to(a: Dec, b: &str, tol: &str) -> bool {
    dec_sub(a, d(b)).abs().lt(&d(tol))
}

#[test]
fn effective_ownership_cross_holding_converges() {
    let entities = vec!["A".to_string(), "B".to_string()];
    let parent = vec![("A".to_string(), d("0.8"))];
    let cross = vec![
        ("A".to_string(), "B".to_string(), d("0.6")),
        ("B".to_string(), "A".to_string(), d("0.1")),
    ];
    let eff = effective_ownership(&entities, &parent, &cross);
    let a = eff.get("A").unwrap();
    let b = eff.get("B").unwrap();
    assert!(close_to(a, "0.851063", "0.0001"));
    assert!(close_to(b, "0.510638", "0.0001"));
}

#[test]
fn effective_ownership_no_cross_equals_direct() {
    let entities = vec!["A".to_string(), "B".to_string()];
    let parent = vec![("A".to_string(), d("1")), ("B".to_string(), d("0.75"))];
    let eff = effective_ownership(&entities, &parent, &[]);
    assert_eq!(eff.get("A").unwrap(), d("1"));
    assert_eq!(eff.get("B").unwrap(), d("0.75"));
}

#[test]
fn effective_ownership_chain_and_unknown_names() {
    // Parent holds 90% of A; A holds 50% of B; a holding naming an unknown entity is ignored.
    let entities = vec!["A".to_string(), "B".to_string()];
    let parent = vec![("A".to_string(), d("0.9"))];
    let cross = vec![
        ("A".to_string(), "B".to_string(), d("0.5")),
        ("X".to_string(), "B".to_string(), d("0.3")),
    ];
    let eff = try_effective_ownership(&entities, &parent, &cross).unwrap();
    assert_eq!(eff.get("A").unwrap(), d("0.9"));
    assert_eq!(eff.get("B").unwrap(), d("0.45"));
    assert!(eff.get("X").is_none());
    assert_eq!(eff.len(), 2);
}

#[test]
fn recon_status_counts_split_by_status() {
    let decls = vec![
        decl("A", "B", "debt", "receivable", "100"),
        decl("B", "A", "debt", "payable", "100"),
        decl("A", "C", "sales", "revenue", "200"),
        decl("C", "A", "sales", "cost", "180"),
        decl("B", "C", "debt", "receivable", "50"),
    ];
    assert_eq!(status_counts(&reconcile(&decls)), (1, 1, 1));
}

#[test]
fn scope_change_counts_by_type() {
    let node = |code: &str, method: ConsolMethod, own: &str| ScopeNode {
        code: code.into(),
        name: code.into(),
        parent: None,
        method,
        ownership: d(own),
        is_leaf: true,
        level: 2,
    };
    let prev = vec![node("A", ConsolMethod::Full, "1"), node("C", ConsolMethod::Full, "1")];
    let curr = vec![node("A", ConsolMethod::Full, "1"), node("D", ConsolMethod::Full, "1"), node("E", ConsolMethod::Full, "1")];
    let counts = change_type_counts(&diff_scope(&prev, &curr, true));
    let pairs: Vec<(&str, usize)> = counts.iter().map(|(t, n)| (t.as_str(), *n)).collect();
    assert_eq!(pairs, vec![("disposal", 1), ("first_time", 2), ("unchanged", 1)]);
}

#[test]
fn shareholdings_feed_effective_ownership() {
    let row = |holder: &str, held: &str, pct: &str, is_parent: bool| ShareRow {
        holder: holder.into(),
        held: held.into(),
        pct: d(pct),
        is_parent,
    };
    let rows = vec![
        row("P", "A", "0.5", true),
        row("P", "A", "0.3", true),
        row("A", "B", "0.6", false),
        row("B", "A", "0.1", false),
        row("", "C", "0.2", false),
        row("A", "", "0.9", false),
    ];
    let inp = shareholding_inputs(&rows).unwrap();
    assert_eq!(inp.entities, vec!["A".to_string(), "B".to_string(), "C".to_string()]);
    assert_eq!(inp.parent_direct.get("A").unwrap(), d("0.8"));
    assert_eq!(inp.parent_direct.len(), 1);
    assert_eq!(inp.cross.len(), 2);
    let pairs = inp.parent_direct.to_pairs();
    let eff = effective_ownership(&inp.entities, &pairs, &inp.cross);
    assert!(close_to(eff.get("A").unwrap(), "0.851063", "0.0001"));
    assert_eq!(eff.get("C").unwrap(), d("0"));
}

#[test]
fn adjustment_raises_the_side_that_declared_less() {
    let (e, a) = adjustment_for("A", "C", d("20"));
    assert_eq!(e, "C");
    assert_eq!(a, d("20"));
    let (e2, a2) = adjustment_for("A", "C", d("-15.5"));
    assert_eq!(e2, "A");
    assert_eq!(a2, d("15.5"));
}

#[test]
fn nci_note_sums_nci_accounts_and_turns_sign() {
    let row = |acc: &str, ty: &str, v: &str| NoteRow {
        account: acc.into(),
        name: format!("{acc} name"),
        account_type: ty.into(),
        consolidated: d(v),
    };
    let rows = vec![row("4400", "NCI", "-120"), row("1001", "asset", "500"), row("4401", "少数股东权益", "-30")];
    let note = nci_note(&rows).unwrap();
    assert_eq!(note.total, d("-150"));
    assert_eq!(note.total_presented, d("150"));
    assert_eq!(note.items.len(), 2);
    assert_eq!(note.items[0].account, "4400");
    assert_eq!(note.items[0].presented, d("120"));
    assert_eq!(note.items[1].name, "4401 name");
    assert!(nci_note(&[]).unwrap().items.is_empty());
}
