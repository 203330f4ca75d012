//! Figures for the notes to the consolidated statements.
use vstd::prelude::*;
use crate::decimal::{Dec, dec_checked_add, dec_add_result};
use crate::text::{copy_str, lower_seq, lower_chars, chars_of, chars_eq};

verus! {

/// A consolidated balance of a node with its account's name and type.
#[derive(Debug, Clone)]
pub struct NoteRow {
    pub account: String,
    pub name: String,
    pub account_type: String,
    /// Debit-positive.
    pub consolidated: Dec,
}

/// A non-controlling-interest account of the note.
#[derive(Debug, Clone)]
pub struct NciItem {
    pub account: String,
    pub name: String,
    pub consolidated: Dec,
    /// As presented (equity is a credit: the sign turned).
    pub presented: Dec,
}

/// The non-controlling-interest note.
#[derive(Debug, Clone)]
pub struct NciNote {
    pub total: Dec,
    pub total_presented: Dec,
    pub items: Vec<NciItem>,
}

/// Account types, lower-cased, of non-controlling interest.
pub open spec fn nci_type_text(t: Seq<char>) -> bool {
    t == "nci"@ || t == "少数股东权益"@
}

pub open spec fn is_nci_row(r: NoteRow) -> bool {
    nci_type_text(lower_seq(r.account_type@))
}

/// The running total of the non-controlling-interest balances (None on overflow).
pub open spec fn nci_total(rows: Seq<NoteRow>) -> Option<Dec>
    decreases rows.len(),
{
    if rows.len() == 0 {
        Some(Dec::zero_val())
    } else {
        match nci_total(rows.drop_last()) {
            None => None,
            Some(s) => if is_nci_row(rows.last()) {
                dec_add_result(s, rows.last().consolidated)
            } else {
                Some(s)
            },
        }
    }
}

/// The non-controlling-interest accounts, in row order: (account, name, balance).
pub open spec fn nci_rows(rows: Seq<NoteRow>) -> Seq<(Seq<char>, Seq<char>, Dec)>
    decreases rows.len(),
{
    if rows.len() == 0 {
        Seq::empty()
    } else if is_nci_row(rows.last()) {
        nci_rows(rows.drop_last()).push((rows.last().account@, rows.last().name@, rows.last().consolidated))
    } else {
        nci_rows(rows.drop_last())
    }
}

pub open spec fn items_view(v: Seq<NciItem>) -> Seq<(Seq<char>, Seq<char>, Dec)> {
    v.map_values(|i: NciItem| (i.account@, i.name@, i.consolidated))
}

proof fn lemma_nci_total_none(rows: Seq<NoteRow>, k: int)
    requires
        0 <= k <= rows.len(),
        nci_total(rows.subrange(0, k)) is None,
    ensures
        nci_total(rows) is None,
    decreases rows.len() - k,
{
    if k < rows.len() {
        assert(rows.subrange(0, k + 1).drop_last() =~= rows.subrange(0, k));
        lemma_nci_total_none(rows, k + 1);
    } else {
        assert(rows.subrange(0, k) =~= rows);
    }
}

fn is_text(t: &Vec<char>, lit: &str) -> (r: bool)
    ensures
        r == (t@ == lit@),
{
    let l = chars_of(lit);
    chars_eq(t.as_slice(), l.as_slice())
}

/// The non-controlling-interest note of a node: its accounts typed `nci` (or
/// 少数股东权益, compared ASCII case-insensitively), each also as presented (sign
/// turned), and their total. None exactly when the total overflows.
pub fn nci_note(rows: &[NoteRow]) -> (r: Option<NciNote>)
    ensures
        r is Some <==> nci_total(rows@) is Some,
        r matches Some(n) ==> {
            &&& n.total == nci_total(rows@)->0
            &&& n.total_presented == n.total.neg_val()
            &&& items_view(n.items@) == nci_rows(rows@)
            &&& forall|i: int| 0 <= i < n.items@.len() ==> (#[trigger] n.items@[i]).presented == n.items@[i].consolidated.neg_val()
        },
{
    let mut total = Dec::zero();
    let mut items: Vec<NciItem> = Vec::new();
    let mut i: usize = 0;
    proof {
        assert(rows@.subrange(0, 0) =~= Seq::<NoteRow>::empty());
        assert(items_view(items@) =~= Seq::<(Seq<char>, Seq<char>, Dec)>::empty());
    }
    while i < rows.len()
        invariant
            i <= rows@.len(),
            nci_total(rows@.subrange(0, i as int)) == Some(total),
            items_view(items@) == nci_rows(rows@.subrange(0, i as int)),
            forall|j: int| 0 <= j < items@.len() ==> (#[trigger] items@[j]).presented == items@[j].consolidated.neg_val(),
        decreases rows@.len() - i,
    {
        let ghost p = rows@.subrange(0, i + 1);
        proof {
            assert(p.drop_last() =~= rows@.subrange(0, i as int));
            assert(p.last() == rows@[i as int]);
        }
        let r = &rows[i];
        let t = lower_chars(r.account_type.as_str());
        if is_text(&t, "nci") || is_text(&t, "少数股东权益") {
            match dec_checked_add(total, r.consolidated) {
                Some(s) => {
                    total = s;
                },
                None => {
                    proof {
                        lemma_nci_total_none(rows@, i + 1);
                    }
                    return None;
                },
            }
            let ghost before = items@;
            items.push(NciItem {
                account: copy_str(r.account.as_str()),
                name: copy_str(r.name.as_str()),
                consolidated: r.consolidated,
                presented: r.consolidated.neg(),
            });
            proof {
                assert(items_view(items@) =~= items_view(before).push((r.account@, r.name@, r.consolidated)));
            }
        }
        i = i + 1;
    }
    proof {
        assert(rows@.subrange(0, rows@.len() as int) =~= rows@);
    }
    Some(NciNote { total, total_presented: total.neg(), items })
}

} // verus!
