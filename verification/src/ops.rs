//! Collaborative editing by an operation log: what each submitted operation does
//! (duplicate, rejected for rebase, applied with or without a conflict), which
//! object it targets, and how structural edits move the cell mappings.
use vstd::prelude::*;
use crate::expand::is_ws;
use crate::grid::{shift_cell_ref, shift_ref_spec, cell_ref_anchor, anchor_spec, letters_fit, is_structural, is_structural_spec, a1_spec};
use crate::text::{chars_of, copy_str, push_char, append_str, int_string, int_text, str_eq, upper_string, upper_seq};

verus! {

/// Whether `p` occurs in `s`.
pub open spec fn contains_seq(s: Seq<char>, p: Seq<char>) -> bool {
    exists|i: int| 0 <= i && i + p.len() <= s.len() && #[trigger] s.subrange(i, i + p.len()) == p
}

/// `str::contains`.
pub fn str_contains(s: &str, p: &str) -> (r: bool)
    ensures
        r == contains_seq(s@, p@),
{
    let a = chars_of(s);
    let b = chars_of(p);
    if b.len() > a.len() {
        proof {
            assert forall|i: int| 0 <= i && i + b@.len() <= a@.len() implies #[trigger] a@.subrange(i, i + b@.len()) != b@ by {}
        }
        return false;
    }
    let mut i: usize = 0;
    while i <= a.len() - b.len()
        invariant
            a@ == s@,
            b@ == p@,
            b@.len() <= a@.len(),
            i <= a@.len() - b@.len() + 1,
            forall|j: int| 0 <= j < i ==> #[trigger] a@.subrange(j, j + b@.len()) != b@,
        decreases a@.len() - i,
    {
        let mut k: usize = 0;
        let mut same = true;
        while k < b.len()
            invariant
                i + b@.len() <= a@.len(),
                a@.len() == a.len(),
                a@ == s@,
                b@ == p@,
                k <= b@.len(),
                same == forall|m: int| 0 <= m < k ==> a@[i + m] == b@[m],
            decreases b@.len() - k,
        {
            if a[i + k] != b[k] {
                same = false;
            }
            k = k + 1;
        }
        if same {
            proof {
                assert(a@.subrange(i as int, i + b@.len()) =~= b@);
            }
            return true;
        }
        proof {
            let m = choose|m: int| 0 <= m < b@.len() && a@[i + m] != b@[m];
            assert(a@.subrange(i as int, i + b@.len())[m] != b@[m]);
        }
        i = i + 1;
    }
    false
}

/// Whether every character is white space (`trim()` leaves nothing).
pub open spec fn is_blank(s: Seq<char>) -> bool {
    forall|i: int| 0 <= i < s.len() ==> is_ws(#[trigger] s[i])
}

pub fn blank(s: &str) -> (r: bool)
    ensures
        r == is_blank(s@),
{
    let cs = chars_of(s);
    let mut i: usize = 0;
    while i < cs.len()
        invariant
            cs@ == s@,
            i <= cs@.len(),
            forall|j: int| 0 <= j < i ==> is_ws(#[trigger] cs@[j]),
        decreases cs@.len() - i,
    {
        let c = cs[i];
        let ws = ('\t' <= c && c <= '\r') || c == ' ' || c == '\u{85}' || c == '\u{a0}' || c == '\u{1680}' || (
        '\u{2000}' <= c && c <= '\u{200a}') || c == '\u{2028}' || c == '\u{2029}' || c == '\u{202f}' || c
            == '\u{205f}' || c == '\u{3000}';
        if !ws {
            return false;
        }
        i = i + 1;
    }
    true
}

/// The target of a submitted operation, as read from its JSON.
#[derive(Debug, Clone)]
pub enum OpTarget {
    /// No `target`.
    Absent,
    /// `target` given as a text.
    Text(String),
    /// `target` given as an object (`sheet`, `cell`, `at`, `region` when present).
    Fields { sheet: Option<String>, cell: Option<String>, at: Option<i64>, region: Option<String> },
}

/// The canonical address of an operation's target: the text as given; `sheet!CELL`
/// (cell upper-cased); `row:{sheet}:{at}` / `col:{sheet}:{at}` (by whether the type
/// names a `Row`); `region:{region}`; otherwise empty.
pub open spec fn target_spec(t: OpTarget, op_type: Seq<char>) -> Seq<char> {
    match t {
        OpTarget::Absent => Seq::empty(),
        OpTarget::Text(s) => s@,
        OpTarget::Fields { sheet, cell, at, region } => {
            let sh = match sheet {
                Some(x) => x@,
                None => Seq::empty(),
            };
            match cell {
                Some(c) => sh + seq!['!'] + upper_seq(c@),
                None => match at {
                    Some(n) => (if contains_seq(op_type, "Row"@) {
                        "row"@
                    } else {
                        "col"@
                    }) + seq![':'] + sh + seq![':'] + int_text(n as int),
                    None => match region {
                        Some(g) => "region:"@ + g@,
                        None => Seq::empty(),
                    },
                },
            }
        },
    }
}

/// The canonical address of an operation's target.
pub fn canonical_target(t: &OpTarget, op_type: &str) -> (r: String)
    ensures
        r@ == target_spec(*t, op_type@),
{
    match t {
        OpTarget::Absent => String::new(),
        OpTarget::Text(s) => s.clone(),
        OpTarget::Fields { sheet, cell, at, region } => {
            let sh = match sheet {
                Some(x) => x.clone(),
                None => String::new(),
            };
            match cell {
                Some(c) => {
                    let mut out = sh;
                    push_char(&mut out, '!');
                    append_str(&mut out, upper_string(c.as_str()).as_str());
                    out
                },
                None => match at {
                    Some(n) => {
                        let mut out = if str_contains(op_type, "Row") {
                            copy_str("row")
                        } else {
                            copy_str("col")
                        };
                        push_char(&mut out, ':');
                        append_str(&mut out, sh.as_str());
                        push_char(&mut out, ':');
                        append_str(&mut out, int_string(*n).as_str());
                        out
                    },
                    None => match region {
                        Some(g) => {
                            let mut out = copy_str("region:");
                            append_str(&mut out, g.as_str());
                            out
                        },
                        None => String::new(),
                    },
                },
            }
        },
    }
}

/// What applying an operation touches besides the log.
#[derive(Debug, Clone, Copy, PartialEq, Eq, Structural)]
pub enum OpEffect {
    /// Formula/binding operations: written to the cell mapping.
    Projection,
    /// Row/column insertion or deletion: the cell mappings are moved.
    RowColShift,
    /// Recorded only (replayed by clients).
    LogOnly,
}

/// The outcome of one submitted operation.
#[derive(Debug, Clone, PartialEq, Eq, Structural)]
pub enum OpOutcome {
    /// No type: rejected.
    MissingType,
    /// Already applied under the same client operation id, at this sequence number.
    Duplicate(i64),
    /// A structural operation based on a stale state: the client must catch up.
    RebaseRequired { base_seq: i64, cur_seq: i64 },
    /// Applied as sequence number `seq`; `conflict_with` is the later operation on
    /// the same target it overwrites (last writer wins), if any.
    Applied { seq: i64, conflict_with: Option<i64>, effect: OpEffect },
}

/// The operation types written to the cell mapping.
pub open spec fn is_projection_spec(t: Seq<char>) -> bool {
    t == "setCellFormula"@ || t == "setCheckFormula"@ || t == "bindElement"@ || t == "unbindElement"@
}

/// Row/column insertions and deletions.
pub open spec fn is_rowcol_spec(t: Seq<char>) -> bool {
    t == "insertRow"@ || t == "deleteRow"@ || t == "insertCol"@ || t == "deleteCol"@
}

/// The effect of an applied operation by its type.
pub open spec fn effect_spec(t: Seq<char>) -> OpEffect {
    if is_projection_spec(t) {
        OpEffect::Projection
    } else if is_rowcol_spec(t) {
        OpEffect::RowColShift
    } else {
        OpEffect::LogOnly
    }
}

/// Whether the last operation on the target must be looked up: a non-structural
/// operation with a non-empty target.
pub open spec fn needs_target_check_spec(op_type: Seq<char>, target: Seq<char>) -> bool {
    op_type.len() > 0 && !is_structural_spec(op_type) && target.len() > 0
}

/// Whether the last operation on the target must be looked up.
pub fn needs_target_check(op_type: &str, target: &str) -> (r: bool)
    ensures
        r == needs_target_check_spec(op_type@, target@),
{
    !op_type.is_empty() && !is_structural(op_type) && !target.is_empty()
}

/// The outcome of an operation: a missing type is rejected; an operation whose client
/// id was already applied is a duplicate; a structural operation must be based on the
/// current sequence number; any other operation is applied as `cur_seq + 1`, in
/// conflict with the latest operation on its target when that one came after the
/// operation's base.
pub open spec fn decide_spec(
    op_type: Seq<char>,
    base_seq: i64,
    cur_seq: i64,
    duplicate_seq: Option<i64>,
    last_target_seq: Option<i64>,
) -> OpOutcome {
    if op_type.len() == 0 {
        OpOutcome::MissingType
    } else if duplicate_seq is Some {
        OpOutcome::Duplicate(duplicate_seq->0)
    } else if is_structural_spec(op_type) && base_seq < cur_seq {
        OpOutcome::RebaseRequired { base_seq, cur_seq }
    } else {
        let conflict_with = if !is_structural_spec(op_type) && (last_target_seq matches Some(l) && l > base_seq) {
            last_target_seq
        } else {
            None
        };
        OpOutcome::Applied { seq: (cur_seq + 1) as i64, conflict_with, effect: effect_spec(op_type) }
    }
}

/// The outcome of an operation, by cases: a structural operation (row/column
/// insertion or deletion, region or sheet addition, region deletion, sheet renaming)
/// based on a sequence number below the current one is never applied; a new
/// (non-duplicate) one is sent back to rebase from exactly its base to the current
/// number. Any other operation with a type and no duplicate is applied as the next
/// sequence number, and only a non-structural one, overwriting a later operation on
/// its target, is flagged as in conflict with that one. An applied row/column
/// insertion or deletion shifts addresses; an applied formula or binding operation
/// is written to the cell mapping; any other is only logged.
pub proof fn lemma_decide_law(
    op_type: Seq<char>,
    base_seq: i64,
    cur_seq: i64,
    duplicate_seq: Option<i64>,
    last_target_seq: Option<i64>,
)
    requires
        cur_seq < i64::MAX,
    ensures
        ({
            let structural = op_type == "insertRow"@ || op_type == "deleteRow"@ || op_type == "insertCol"@ || op_type
                == "deleteCol"@ || op_type == "addRegion"@ || op_type == "delRegion"@ || op_type == "addSheet"@
                || op_type == "renameSheet"@;
            let r = decide_spec(op_type, base_seq, cur_seq, duplicate_seq, last_target_seq);
            &&& op_type.len() == 0 ==> r == OpOutcome::MissingType
            &&& structural && base_seq < cur_seq ==> !(r is Applied)
            &&& structural && base_seq < cur_seq && duplicate_seq is None ==> r == OpOutcome::RebaseRequired {
                base_seq,
                cur_seq,
            }
            &&& (op_type.len() > 0 && duplicate_seq is Some) ==> r == OpOutcome::Duplicate(duplicate_seq->0)
            &&& (op_type.len() > 0 && duplicate_seq is None && !(structural && base_seq < cur_seq)) ==> (r matches OpOutcome::Applied {
                seq,
                conflict_with,
                ..
            } && seq == cur_seq + 1 && (conflict_with is Some ==> !structural && last_target_seq == conflict_with
                && conflict_with->0 > base_seq) && ((!structural && last_target_seq is Some && last_target_seq->0
                > base_seq) ==> conflict_with == last_target_seq))
            &&& r matches OpOutcome::Applied { effect, .. } ==> {
                &&& (op_type == "insertRow"@ || op_type == "deleteRow"@ || op_type == "insertCol"@ || op_type
                    == "deleteCol"@) ==> effect == OpEffect::RowColShift
                &&& (op_type == "setCellFormula"@ || op_type == "setCheckFormula"@ || op_type == "bindElement"@
                    || op_type == "unbindElement"@) ==> effect == OpEffect::Projection
                &&& !(op_type == "insertRow"@ || op_type == "deleteRow"@ || op_type == "insertCol"@ || op_type
                    == "deleteCol"@ || op_type == "setCellFormula"@ || op_type == "setCheckFormula"@ || op_type
                    == "bindElement"@ || op_type == "unbindElement"@) ==> effect == OpEffect::LogOnly
            }
        }),
{
    reveal_strlit("insertRow");
    reveal_strlit("deleteRow");
    reveal_strlit("insertCol");
    reveal_strlit("deleteCol");
    reveal_strlit("addRegion");
    reveal_strlit("delRegion");
    reveal_strlit("addSheet");
    reveal_strlit("renameSheet");
    reveal_strlit("setCellFormula");
    reveal_strlit("setCheckFormula");
    reveal_strlit("bindElement");
    reveal_strlit("unbindElement");
}

fn is_projection(t: &str) -> (r: bool)
    ensures
        r == is_projection_spec(t@),
{
    str_eq(t, "setCellFormula") || str_eq(t, "setCheckFormula") || str_eq(t, "bindElement") || str_eq(
        t,
        "unbindElement",
    )
}

fn is_rowcol(t: &str) -> (r: bool)
    ensures
        r == is_rowcol_spec(t@),
{
    str_eq(t, "insertRow") || str_eq(t, "deleteRow") || str_eq(t, "insertCol") || str_eq(t, "deleteCol")
}

/// Decides one operation of a batch (the sequence number is the current one under
/// the report version's lock).
pub fn decide_op(
    op_type: &str,
    base_seq: i64,
    cur_seq: i64,
    duplicate_seq: Option<i64>,
    last_target_seq: Option<i64>,
) -> (r: OpOutcome)
    requires
        cur_seq < i64::MAX,
    ensures
        r == decide_spec(op_type@, base_seq, cur_seq, duplicate_seq, last_target_seq),
{
    if op_type.is_empty() {
        return OpOutcome::MissingType;
    }
    if let Some(seq) = duplicate_seq {
        return OpOutcome::Duplicate(seq);
    }
    let structural = is_structural(op_type);
    if structural && base_seq < cur_seq {
        return OpOutcome::RebaseRequired { base_seq, cur_seq };
    }
    let conflict_with = match last_target_seq {
        Some(l) => if !structural && l > base_seq {
            Some(l)
        } else {
            None
        },
        None => None,
    };
    let effect = if is_projection(op_type) {
        OpEffect::Projection
    } else if is_rowcol(op_type) {
        OpEffect::RowColShift
    } else {
        OpEffect::LogOnly
    };
    OpOutcome::Applied { seq: cur_seq + 1, conflict_with, effect }
}

/// What a formula/binding operation writes: the mapping column and its new value
/// (None clears it).
pub open spec fn projection_spec(
    op_type: Seq<char>,
    formula: Option<Seq<char>>,
    check_formula: Option<Seq<char>>,
    element_code: Option<Seq<char>>,
) -> Option<(Seq<char>, Option<Seq<char>>)> {
    if op_type == "setCellFormula"@ {
        Some(
            (
                "calc_formula"@,
                match formula {
                    Some(f) => if !is_blank(f) {
                        Some(f)
                    } else {
                        None
                    },
                    None => None,
                },
            ),
        )
    } else if op_type == "setCheckFormula"@ {
        let f = if formula is Some {
            formula
        } else {
            check_formula
        };
        Some(
            (
                "check_formula"@,
                match f {
                    Some(x) => if !is_blank(x) {
                        Some(x)
                    } else {
                        None
                    },
                    None => None,
                },
            ),
        )
    } else if op_type == "bindElement"@ {
        Some(
            (
                "element_code"@,
                match element_code {
                    Some(e) => if e.len() > 0 {
                        Some(e)
                    } else {
                        None
                    },
                    None => None,
                },
            ),
        )
    } else if op_type == "unbindElement"@ {
        Some(("element_code"@, None))
    } else {
        None
    }
}

fn opt_view(o: &Option<String>) -> (r: Option<String>)
    ensures
        r matches Some(x) ==> o matches Some(y) && x@ == y@,
        r is None <==> o is None,
{
    match o {
        Some(x) => Some(x.clone()),
        None => None,
    }
}

/// The mapping column a formula/binding operation writes and the value (None
/// clears); None for other operation types.
pub fn projection_update(
    op_type: &str,
    formula: &Option<String>,
    check_formula: &Option<String>,
    element_code: &Option<String>,
) -> (r: Option<(String, Option<String>)>)
    ensures
        (r is Some) == (projection_spec(
            op_type@,
            match formula { Some(x) => Some(x@), None => None },
            match check_formula { Some(x) => Some(x@), None => None },
            match element_code { Some(x) => Some(x@), None => None },
        ) is Some),
        r matches Some(p) ==> {
            let want = projection_spec(
                op_type@,
                match formula { Some(x) => Some(x@), None => None },
                match check_formula { Some(x) => Some(x@), None => None },
                match element_code { Some(x) => Some(x@), None => None },
            )->0;
            &&& p.0@ == want.0
            &&& (p.1 is Some) == (want.1 is Some)
            &&& (p.1 matches Some(v) ==> v@ == want.1->0)
        },
{
    if str_eq(op_type, "setCellFormula") {
        let v = match formula {
            Some(f) => if !blank(f.as_str()) {
                Some(f.clone())
            } else {
                None
            },
            None => None,
        };
        Some((copy_str("calc_formula"), v))
    } else if str_eq(op_type, "setCheckFormula") {
        let f = if formula.is_some() {
            opt_view(formula)
        } else {
            opt_view(check_formula)
        };
        let v = match f {
            Some(x) => if !blank(x.as_str()) {
                Some(x)
            } else {
                None
            },
            None => None,
        };
        Some((copy_str("check_formula"), v))
    } else if str_eq(op_type, "bindElement") {
        let v = match element_code {
            Some(e) => if !e.as_str().is_empty() {
                Some(e.clone())
            } else {
                None
            },
            None => None,
        };
        Some((copy_str("element_code"), v))
    } else if str_eq(op_type, "unbindElement") {
        Some((copy_str("element_code"), None))
    } else {
        None
    }
}

/// What a row/column edit does to one cell mapping.
#[derive(Debug, Clone, PartialEq)]
pub enum CellRemap {
    /// The cell lies in the deleted range (or is no address): the mapping is removed.
    Delete,
    /// The address moves: new address and its (row, column) anchor.
    Move { cell_ref: String, row: i64, col: i64 },
    /// The address does not change.
    Keep,
}

/// Where a cell mapping goes under a row/column insertion or deletion.
pub fn remap_cell(cell: &str, axis_is_row: bool, at: i64, count: i64, is_insert: bool) -> (r: CellRemap)
    requires
        letters_fit(cell@),
        0 <= count,
        at + count <= i64::MAX - 1,
        a1_spec(cell@) matches Some(p) ==> p.0 + count < i64::MAX - 1 && p.1 + count < i64::MAX - 1,
    ensures
        r is Delete <==> shift_ref_spec(cell@, axis_is_row, at as int, count as int, is_insert) is None,
        r is Keep <==> shift_ref_spec(cell@, axis_is_row, at as int, count as int, is_insert) == Some(cell@),
        r matches CellRemap::Move { cell_ref, row, col } ==> {
            &&& shift_ref_spec(cell@, axis_is_row, at as int, count as int, is_insert) == Some(cell_ref@)
            &&& cell_ref@ != cell@
            &&& row == anchor_spec(cell_ref@).0
            &&& col == anchor_spec(cell_ref@).1
        },
{
    match shift_cell_ref(cell, axis_is_row, at, count, is_insert) {
        None => CellRemap::Delete,
        Some(new_ref) => {
            if str_eq(new_ref.as_str(), cell) {
                CellRemap::Keep
            } else {
                proof {
                    crate::grid::lemma_shifted_fits(cell@, axis_is_row, at as int, count as int, is_insert);
                }
                let (row, col) = cell_ref_anchor(new_ref.as_str());
                CellRemap::Move { cell_ref: new_ref, row, col }
            }
        },
    }
}

} // verus!
