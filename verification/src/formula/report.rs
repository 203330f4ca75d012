//! A report as one evaluation reads it (each cell's element, formula and stored
//! value, and the element formulas the cells inherit), and what it gives back.
use vstd::prelude::*;
use crate::formula::value::FValue;
use crate::formula::eval::{str_lookup, find_str};
use crate::ops::{is_blank, blank};
use crate::text::str_eq;

verus! {

/// One cell of a loaded report.
#[derive(Debug)]
pub struct CellInput {
    /// Its upper-case A1 reference.
    pub cell_ref: String,
    /// The data element it is bound to.
    pub element_code: Option<String>,
    /// Its own formula, which comes first.
    pub cell_formula: Option<String>,
    /// Its stored value.
    pub stored: Option<FValue>,
    /// Entered by hand: never recomputed.
    pub is_manual: bool,
}

/// A report for one organisation and period, as loaded.
#[derive(Debug)]
pub struct ReportSnapshot {
    pub report: String,
    pub version: String,
    pub org: String,
    pub period: String,
    pub cells: Vec<CellInput>,
    /// (element code, formula): the formulas cells inherit from their element.
    pub element_formulas: Vec<(String, String)>,
}

/// The first position of a cell reference, or -1.
pub open spec fn cell_index(cells: Seq<CellInput>, r: Seq<char>) -> int
    decreases cells.len(),
{
    if cells.len() == 0 {
        -1
    } else if cells[0].cell_ref@ == r {
        0
    } else {
        let i = cell_index(cells.subrange(1, cells.len() as int), r);
        if i < 0 {
            -1
        } else {
            i + 1
        }
    }
}

/// The formula a cell is computed by: its own where it has a non-blank one, else its
/// element's where that is non-blank, else none (the cell is a leaf).
pub open spec fn effective_spec(elem: Seq<(String, String)>, c: CellInput) -> Option<Seq<char>> {
    match c.cell_formula {
        Some(f) if !is_blank(f@) => Some(f@),
        _ => match c.element_code {
            Some(ec) => match str_lookup(elem, ec@) {
                Some(f) if !is_blank(f) => Some(f),
                _ => None,
            },
            None => None,
        },
    }
}

pub proof fn lemma_cell_index(cells: Seq<CellInput>, r: Seq<char>)
    ensures
        -1 <= cell_index(cells, r) < cells.len(),
        cell_index(cells, r) >= 0 ==> cells[cell_index(cells, r)].cell_ref@ == r,
        cell_index(cells, r) < 0 ==> forall|j: int| 0 <= j < cells.len() ==> #[trigger] cells[j].cell_ref@ != r,
    decreases cells.len(),
{
    if cells.len() > 0 {
        let t = cells.subrange(1, cells.len() as int);
        lemma_cell_index(t, r);
        assert forall|j: int| 0 < j < cells.len() implies #[trigger] cells[j] == t[j - 1] by {}
    }
}

impl ReportSnapshot {
    /// The first cell with this reference.
    pub fn find_cell(&self, cell_ref: &str) -> (r: Option<&CellInput>)
        ensures
            cell_index(self.cells@, cell_ref@) < 0 ==> r is None,
            cell_index(self.cells@, cell_ref@) >= 0 ==> r == Some(&self.cells@[cell_index(self.cells@, cell_ref@)]),
            r is None <==> forall|j: int| 0 <= j < self.cells@.len() ==> #[trigger] self.cells@[j].cell_ref@ != cell_ref@,
            r matches Some(c) ==> c.cell_ref@ == cell_ref@,
    {
        let mut i: usize = 0;
        proof {
            lemma_cell_index(self.cells@, cell_ref@);
            assert(self.cells@.subrange(0, self.cells@.len() as int) =~= self.cells@);
        }
        while i < self.cells.len()
            invariant
                i <= self.cells@.len(),
                ({
                    let k = cell_index(self.cells@.subrange(i as int, self.cells@.len() as int), cell_ref@);
                    let c = cell_index(self.cells@, cell_ref@);
                    (k < 0 ==> c < 0) && (k >= 0 ==> c == k + i)
                }),
            decreases self.cells@.len() - i,
        {
            let ghost rest = self.cells@.subrange(i as int, self.cells@.len() as int);
            proof {
                assert(rest[0] == self.cells@[i as int]);
                assert(rest.subrange(1, rest.len() as int) =~= self.cells@.subrange(i + 1, self.cells@.len() as int));
            }
            if str_eq(self.cells[i].cell_ref.as_str(), cell_ref) {
                return Some(&self.cells[i]);
            }
            i = i + 1;
        }
        proof {
            assert(self.cells@.subrange(i as int, self.cells@.len() as int) =~= Seq::<CellInput>::empty());
        }
        None
    }

    /// The formula a cell is computed by (see `effective_spec`).
    pub fn effective_formula(&self, cell: &CellInput) -> (r: Option<String>)
        ensures
            match effective_spec(self.element_formulas@, *cell) {
                Some(f) => r matches Some(s) && s@ == f,
                None => r is None,
            },
    {
        if let Some(f) = &cell.cell_formula {
            if !blank(f.as_str()) {
                return Some(f.clone());
            }
        }
        match &cell.element_code {
            Some(ec) => match find_str(&self.element_formulas, ec.as_str()) {
                Some(f) => {
                    if blank(f.as_str()) {
                        None
                    } else {
                        Some(f.clone())
                    }
                },
                None => None,
            },
            None => None,
        }
    }
}

/// A computed cell, as written back.
#[derive(Debug)]
pub struct ComputedCell {
    pub report: String,
    pub version: String,
    pub org: String,
    pub period: String,
    pub cell_ref: String,
    pub value: FValue,
    /// `computed` or `error`.
    pub status: String,
}

/// The outcome of computing a report.
#[derive(Debug)]
pub struct ComputeOutcome {
    pub cells: Vec<ComputedCell>,
    /// Readable errors, cycles among them.
    pub errors: Vec<String>,
    pub computed: usize,
    pub error_count: usize,
}

impl Default for ComputeOutcome {
    fn default() -> (r: Self)
        ensures
            r.cells@.len() == 0,
            r.errors@.len() == 0,
            r.computed == 0,
            r.error_count == 0,
    {
        ComputeOutcome { cells: Vec::new(), errors: Vec::new(), computed: 0, error_count: 0 }
    }
}

/// The key of a loaded report: `report|version|org|period`.
pub open spec fn report_key_spec(report: Seq<char>, version: Seq<char>, org: Seq<char>, period: Seq<char>) -> Seq<char> {
    report + seq!['|'] + version + seq!['|'] + org + seq!['|'] + period
}

/// The key of a loaded report (one per report, version, organisation and period).
pub fn report_key(report: &str, version: &str, org: &str, period: &str) -> (r: String)
    ensures
        r@ == report_key_spec(report@, version@, org@, period@),
{
    let mut s = crate::text::copy_str(report);
    crate::text::push_char(&mut s, '|');
    crate::text::append_str(&mut s, version);
    crate::text::push_char(&mut s, '|');
    crate::text::append_str(&mut s, org);
    crate::text::push_char(&mut s, '|');
    crate::text::append_str(&mut s, period);
    s
}

} // verus!
