use cmx_report::grid::{cell_ref_anchor, col_to_letters, is_structural, parse_a1, shift_cell_ref, struct_shift_index};

#[test]
fn parse_a1_roundtrip() {
    assert_eq!(parse_a1("A1"), Some((0, 0)));
    assert_eq!(parse_a1("C5"), Some((4, 2)));
    assert_eq!(parse_a1("AA10"), Some((9, 26)));
    assert_eq!(parse_a1("bad"), None);
    assert_eq!(parse_a1("5"), None);
}

#[test]
fn col_letters_roundtrip() {
    assert_eq!(col_to_letters(0), "A");
    assert_eq!(col_to_letters(2), "C");
    assert_eq!(col_to_letters(26), "AA");
    assert_eq!(col_to_letters(27), "AB");
}

#[test]
fn shift_index_insert() {
    assert_eq!(struct_shift_index(1, 2, 1, true), Some(1));
    assert_eq!(struct_shift_index(2, 2, 1, true), Some(3));
    assert_eq!(struct_shift_index(4, 2, 2, true), Some(6));
}

#[test]
fn shift_index_delete() {
    assert_eq!(struct_shift_index(1, 2, 1, false), Some(1));
    assert_eq!(struct_shift_index(2, 2, 1, false), None);
    assert_eq!(struct_shift_index(4, 2, 1, false), Some(3));
    assert_eq!(struct_shift_index(3, 2, 2, false), None);
    assert_eq!(struct_shift_index(4, 2, 2, false), Some(2));
}

#[test]
fn shift_cell_ref_row() {
    assert_eq!(shift_cell_ref("C5", true, 2, 1, true).as_deref(), Some("C6"));
    assert_eq!(shift_cell_ref("C5", true, 10, 1, true).as_deref(), Some("C5"));
    assert_eq!(shift_cell_ref("C5", true, 2, 1, false).as_deref(), Some("C4"));
    assert_eq!(shift_cell_ref("C5", true, 4, 1, false), None);
}

#[test]
fn shift_cell_ref_col() {
    assert_eq!(shift_cell_ref("C5", false, 1, 1, true).as_deref(), Some("D5"));
    assert_eq!(shift_cell_ref("C5", false, 2, 1, false), None);
    assert_eq!(shift_cell_ref("C5", false, 1, 1, false).as_deref(), Some("B5"));
    assert_eq!(shift_cell_ref("AA10", false, 0, 1, true).as_deref(), Some("AB10"));
}

#[test]
fn cell_ref_anchor_matches_new_ref() {
    let (r, c) = cell_ref_anchor("D6");
    assert_eq!((r, c), (6, 4));
}

#[test]
fn insert_then_delete_restores_position() {
    for pos in 0i64..8 {
        let up = struct_shift_index(pos, 3, 2, true).unwrap();
        assert_eq!(struct_shift_index(up, 3, 2, false), Some(pos));
    }
    let moved = shift_cell_ref("B7", true, 2, 3, true).unwrap();
    assert_eq!(shift_cell_ref(&moved, true, 2, 3, false).as_deref(), Some("B7"));
}

#[test]
fn structural_ops() {
    assert!(is_structural("insertRow"));
    assert!(is_structural("renameSheet"));
    assert!(!is_structural("set_value"));
}

#[test]
fn shift_cell_ref_with_negative_index() {
    // an insertion before row 1 moves every row down
    assert_eq!(shift_cell_ref("C5", true, -2, 1, true).as_deref(), Some("C6"));
    // deleting rows -2..0 (none of them real) moves C5 up by two
    assert_eq!(shift_cell_ref("C5", true, -2, 2, false).as_deref(), Some("C3"));
}
