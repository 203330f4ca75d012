//! Effective ownership under cross-holdings, by fixed-point iteration.
use vstd::prelude::*;
use crate::decimal::{Dec, pow10, dec_checked_add, dec_checked_sub, dec_checked_mul, dec_add_result, dec_sub_result, dec_mul_result};
use crate::amount_map::{AmountMap, Entries, lookup, entries_view};
use crate::order::{views, strictly_sorted, insert_sorted};
use crate::consol::aggregate::{sum_rows, lemma_sum_rows_prefix};
use crate::text::{str_eq, copy_str};

verus! {

/// The index of the last entity with a name (what a name → index map built in
/// order keeps).
pub open spec fn last_index(es: Seq<Seq<char>>, name: Seq<char>) -> Option<int>
    decreases es.len(),
{
    if es.len() == 0 {
        None
    } else if es.last() == name {
        Some(es.len() - 1)
    } else {
        last_index(es.drop_last(), name)
    }
}

/// The parent's direct share of each entity (0 where none is given).
pub open spec fn direct_shares(es: Seq<Seq<char>>, parent: Entries) -> Seq<Dec> {
    Seq::new(es.len(), |i: int| match lookup(parent, es[i]) {
        Some(v) => v,
        None => Dec::zero_val(),
    })
}

/// An n × n matrix of zeros.
pub open spec fn zero_matrix(n: nat) -> Seq<Seq<Dec>> {
    Seq::new(n, |i: int| Seq::new(n, |j: int| Dec::zero_val()))
}

/// The holdings between entities: each (holder, held, share) of known entities adds
/// its share into `m[holder][held]` (None on overflow).
pub open spec fn cross_matrix(es: Seq<Seq<char>>, cross: Seq<(Seq<char>, Seq<char>, Dec)>) -> Option<Seq<Seq<Dec>>>
    decreases cross.len(),
{
    if cross.len() == 0 {
        Some(zero_matrix(es.len()))
    } else {
        match cross_matrix(es, cross.drop_last()) {
            None => None,
            Some(m) => {
                let c = cross.last();
                match (last_index(es, c.0), last_index(es, c.1)) {
                    (Some(a), Some(b)) => match dec_add_result(m[a][b], c.2) {
                        Some(x) => Some(m.update(a, m[a].update(b, x))),
                        None => None,
                    },
                    _ => Some(m),
                }
            },
        }
    }
}

/// `v` after adding `e × row[j]` into `v[j]` for the columns `j < k` whose holding is
/// not zero, in column order.
pub open spec fn add_row(v: Seq<Dec>, e: Dec, row: Seq<Dec>, k: int) -> Option<Seq<Dec>>
    decreases k,
{
    if k <= 0 {
        Some(v)
    } else {
        match add_row(v, e, row, k - 1) {
            None => None,
            Some(w) => if row[k - 1].val() != 0 {
                match dec_mul_result(e, row[k - 1]) {
                    None => None,
                    Some(p) => match dec_add_result(w[k - 1], p) {
                        None => None,
                        Some(s) => Some(w.update(k - 1, s)),
                    },
                }
            } else {
                Some(w)
            },
        }
    }
}

/// The direct shares plus the contributions of the rows `i < k` whose current share
/// is not zero, in row order.
pub open spec fn add_rows(d: Seq<Dec>, m: Seq<Seq<Dec>>, eff: Seq<Dec>, k: int) -> Option<Seq<Dec>>
    decreases k,
{
    if k <= 0 {
        Some(d)
    } else {
        match add_rows(d, m, eff, k - 1) {
            None => None,
            Some(v) => if eff[k - 1].val() != 0 {
                add_row(v, eff[k - 1], m[k - 1], d.len() as int)
            } else {
                Some(v)
            },
        }
    }
}

/// One round: `next = d + eff · M`.
pub open spec fn step(d: Seq<Dec>, m: Seq<Seq<Dec>>, eff: Seq<Dec>) -> Option<Seq<Dec>> {
    add_rows(d, m, eff, d.len() as int)
}

/// The absolute value of a value.
pub open spec fn abs_int(x: int) -> int {
    if x < 0 {
        -x
    } else {
        x
    }
}

/// Every change of a round can be computed.
pub open spec fn deltas_ok(next: Seq<Dec>, eff: Seq<Dec>) -> bool {
    forall|j: int| 0 <= j < next.len() ==> #[trigger] dec_sub_result(next[j], eff[j]) is Some
}

/// Every change of a round is below 10^-9.
pub open spec fn converged(next: Seq<Dec>, eff: Seq<Dec>) -> bool {
    forall|j: int| 0 <= j < next.len() ==> abs_int((#[trigger] dec_sub_result(next[j], eff[j]))->0.val()) < pow10(19)
}

/// At most `rounds` rounds from `eff`, stopping after the first round whose changes
/// are all below 10^-9 (None on overflow).
pub open spec fn iterate(d: Seq<Dec>, m: Seq<Seq<Dec>>, eff: Seq<Dec>, rounds: nat) -> Option<Seq<Dec>>
    decreases rounds,
{
    if rounds == 0 {
        Some(eff)
    } else {
        match step(d, m, eff) {
            None => None,
            Some(next) => if !deltas_ok(next, eff) {
                None
            } else if converged(next, eff) {
                Some(next)
            } else {
                iterate(d, m, next, (rounds - 1) as nat)
            },
        }
    }
}

/// The effective shares of the entities, in entity order: 200 rounds at most from
/// the direct shares (None on overflow).
pub open spec fn effective_shares(
    es: Seq<Seq<char>>,
    parent: Entries,
    cross: Seq<(Seq<char>, Seq<char>, Dec)>,
) -> Option<Seq<Dec>> {
    match cross_matrix(es, cross) {
        None => None,
        Some(m) => iterate(direct_shares(es, parent), m, direct_shares(es, parent), 200),
    }
}

pub open spec fn cross_view(c: Seq<(String, String, Dec)>) -> Seq<(Seq<char>, Seq<char>, Dec)> {
    c.map_values(|e: (String, String, Dec)| (e.0@, e.1@, e.2))
}

/// The map from names to shares: a name's share is that of its last entity.
pub open spec fn shares_map_is(r: Entries, es: Seq<Seq<char>>, eff: Seq<Dec>) -> bool {
    forall|k: Seq<char>| #[trigger] lookup(r, k) == match last_index(es, k) {
        Some(i) => Some(eff[i]),
        None => None::<Dec>,
    }
}

fn last_pos(es: &[String], name: &str) -> (r: Option<usize>)
    ensures
        match last_index(views(es@), name@) {
            Some(i) => r == Some(i as usize),
            None => r is None,
        },
{
    let ghost v = views(es@);
    let mut i: usize = es.len();
    proof {
        assert(v.subrange(0, v.len() as int) =~= v);
    }
    while i > 0
        invariant
            i <= es@.len(),
            v == views(es@),
            last_index(v, name@) == last_index(v.subrange(0, i as int), name@),
        decreases i,
    {
        proof {
            let p = v.subrange(0, i as int);
            assert(p.last() == es@[i - 1]@);
            assert(p.drop_last() =~= v.subrange(0, i - 1));
        }
        if str_eq(es[i - 1].as_str(), name) {
            return Some(i - 1);
        }
        i = i - 1;
    }
    None
}

fn last_value(ps: &[(String, Dec)], name: &str) -> (r: Option<Dec>)
    ensures
        r == lookup(entries_view(ps@), name@),
{
    let ghost v = entries_view(ps@);
    let mut i: usize = ps.len();
    proof {
        assert(v.subrange(0, v.len() as int) =~= v);
    }
    while i > 0
        invariant
            i <= ps@.len(),
            v == entries_view(ps@),
            lookup(v, name@) == lookup(v.subrange(0, i as int), name@),
        decreases i,
    {
        proof {
            let p = v.subrange(0, i as int);
            assert(p.last() == (ps@[i - 1].0@, ps@[i - 1].1));
            assert(p.drop_last() =~= v.subrange(0, i - 1));
        }
        if str_eq(ps[i - 1].0.as_str(), name) {
            return Some(ps[i - 1].1);
        }
        i = i - 1;
    }
    None
}

fn copy_row(r: &Vec<Dec>) -> (c: Vec<Dec>)
    ensures
        c@ == r@,
{
    let mut c: Vec<Dec> = Vec::new();
    let mut i: usize = 0;
    while i < r.len()
        invariant
            i <= r@.len(),
            c@ == r@.subrange(0, i as int),
        decreases r@.len() - i,
    {
        c.push(r[i]);
        i = i + 1;
        assert(c@ =~= r@.subrange(0, i as int));
    }
    assert(r@.subrange(0, r@.len() as int) =~= r@);
    c
}

pub open spec fn rows_view(m: Seq<Vec<Dec>>) -> Seq<Seq<Dec>> {
    m.map_values(|r: Vec<Dec>| r@)
}

fn direct_of(entities: &[String], parent_direct: &[(String, Dec)]) -> (d: Vec<Dec>)
    ensures
        d@ == direct_shares(views(entities@), entries_view(parent_direct@)),
{
    let ghost es = views(entities@);
    let ghost pd = entries_view(parent_direct@);
    let mut d: Vec<Dec> = Vec::new();
    let mut i: usize = 0;
    while i < entities.len()
        invariant
            i <= entities@.len(),
            es == views(entities@),
            pd == entries_view(parent_direct@),
            d@ == direct_shares(es, pd).subrange(0, i as int),
        decreases entities@.len() - i,
    {
        let v = match last_value(parent_direct, entities[i].as_str()) {
            Some(x) => x,
            None => Dec::zero(),
        };
        d.push(v);
        i = i + 1;
        assert(d@ =~= direct_shares(es, pd).subrange(0, i as int));
    }
    assert(direct_shares(es, pd).subrange(0, es.len() as int) =~= direct_shares(es, pd));
    d
}

proof fn lemma_cross_none(es: Seq<Seq<char>>, cross: Seq<(Seq<char>, Seq<char>, Dec)>, i: int)
    requires
        0 <= i <= cross.len(),
        cross_matrix(es, cross.subrange(0, i)) is None,
    ensures
        cross_matrix(es, cross) is None,
    decreases cross.len() - i,
{
    if i < cross.len() {
        assert(cross.subrange(0, i + 1).drop_last() =~= cross.subrange(0, i));
        lemma_cross_none(es, cross, i + 1);
    } else {
        assert(cross.subrange(0, i) =~= cross);
    }
}

fn zero_rows(n: usize) -> (m: Vec<Vec<Dec>>)
    ensures
        rows_view(m@) == zero_matrix(n as nat),
        m@.len() == n,
        forall|i: int| 0 <= i < n ==> (#[trigger] m@[i])@.len() == n,
{
    let mut m: Vec<Vec<Dec>> = Vec::new();
    let mut i: usize = 0;
    while i < n
        invariant
            i <= n,
            m@.len() == i,
            forall|t: int| 0 <= t < i ==> (#[trigger] m@[t])@ == zero_matrix(n as nat)[t],
        decreases n - i,
    {
        let mut row: Vec<Dec> = Vec::new();
        let mut j: usize = 0;
        while j < n
            invariant
                j <= n,
                row@.len() == j,
                forall|k: int| 0 <= k < j ==> (#[trigger] row@[k]) == Dec::zero_val(),
            decreases n - j,
        {
            row.push(Dec::zero());
            j = j + 1;
        }
        assert(row@ =~= zero_matrix(n as nat)[i as int]);
        m.push(row);
        i = i + 1;
    }
    assert(rows_view(m@) =~= zero_matrix(n as nat));
    m
}

/// The holdings matrix (None on overflow).
fn build_matrix(entities: &[String], cross: &[(String, String, Dec)]) -> (r: Option<Vec<Vec<Dec>>>)
    ensures
        match cross_matrix(views(entities@), cross_view(cross@)) {
            None => r is None,
            Some(m) => r matches Some(x) && rows_view(x@) == m,
        },
{
    let ghost es = views(entities@);
    let ghost cv = cross_view(cross@);
    let n = entities.len();
    let mut m = zero_rows(n);
    let mut c: usize = 0;
    proof {
        assert(cv.subrange(0, 0) =~= Seq::<(Seq<char>, Seq<char>, Dec)>::empty());
    }
    while c < cross.len()
        invariant
            c <= cross@.len(),
            es == views(entities@),
            cv == cross_view(cross@),
            n == es.len(),
            cross_matrix(es, cv.subrange(0, c as int)) == Some(rows_view(m@)),
            m@.len() == n,
            forall|i: int| 0 <= i < n ==> (#[trigger] m@[i])@.len() == n,
        decreases cross@.len() - c,
    {
        let ghost p = cv.subrange(0, c + 1);
        proof {
            assert(p.drop_last() =~= cv.subrange(0, c as int));
            assert(p.last() == cv[c as int]);
            assert(cv[c as int] == (cross@[c as int].0@, cross@[c as int].1@, cross@[c as int].2));
        }
        let a = last_pos(entities, cross[c].0.as_str());
        let b = last_pos(entities, cross[c].1.as_str());
        match (a, b) {
            (Some(a), Some(b)) => {
                proof {
                    lemma_last_index_range(es, cross@[c as int].0@);
                    lemma_last_index_range(es, cross@[c as int].1@);
                    assert(0 <= a < n && 0 <= b < n);
                    assert(rows_view(m@)[a as int] == m@[a as int]@);
                }
                match dec_checked_add(m[a][b], cross[c].2) {
                    Some(x) => {
                        let mut row = copy_row(&m[a]);
                        row.set(b, x);
                        let ghost before = m@;
                        m.set(a, row);
                        proof {
                            assert(rows_view(m@) =~= rows_view(before).update(a as int, rows_view(before)[a as int].update(b as int, x)));
                        }
                    },
                    None => {
                        proof {
                            assert(rows_view(m@)[a as int][b as int] == m@[a as int]@[b as int]);
                            assert(cross_matrix(es, p) is None);
                            lemma_cross_none(es, cv, c + 1);
                        }
                        return None;
                    },
                }
            },
            _ => {},
        }
        c = c + 1;
    }
    proof {
        assert(cv.subrange(0, cv.len() as int) =~= cv);
    }
    Some(m)
}

proof fn lemma_add_row_none(v: Seq<Dec>, e: Dec, row: Seq<Dec>, j: int, k: int)
    requires
        0 <= j <= k,
        add_row(v, e, row, j) is None,
    ensures
        add_row(v, e, row, k) is None,
    decreases k - j,
{
    if j < k {
        lemma_add_row_none(v, e, row, j + 1, k);
    }
}

proof fn lemma_add_row_len(v: Seq<Dec>, e: Dec, row: Seq<Dec>, k: int)
    requires
        0 <= k <= v.len(),
    ensures
        add_row(v, e, row, k) matches Some(w) ==> w.len() == v.len(),
    decreases k,
{
    if k > 0 {
        lemma_add_row_len(v, e, row, k - 1);
    }
}

proof fn lemma_add_rows_none(d: Seq<Dec>, m: Seq<Seq<Dec>>, eff: Seq<Dec>, i: int, k: int)
    requires
        0 <= i <= k,
        add_rows(d, m, eff, i) is None,
    ensures
        add_rows(d, m, eff, k) is None,
    decreases k - i,
{
    if i < k {
        lemma_add_rows_none(d, m, eff, i + 1, k);
    }
}

proof fn lemma_add_rows_len(d: Seq<Dec>, m: Seq<Seq<Dec>>, eff: Seq<Dec>, k: int)
    requires
        0 <= k,
    ensures
        add_rows(d, m, eff, k) matches Some(v) ==> v.len() == d.len(),
    decreases k,
{
    if k > 0 {
        lemma_add_rows_len(d, m, eff, k - 1);
        if let Some(v) = add_rows(d, m, eff, k - 1) {
            if eff[k - 1].val() != 0 {
                lemma_add_row_len(v, eff[k - 1], m[k - 1], d.len() as int);
            }
        }
    }
}

/// One round `d + eff · M` (None on overflow).
fn step_exec(d: &Vec<Dec>, m: &Vec<Vec<Dec>>, eff: &Vec<Dec>) -> (r: Option<Vec<Dec>>)
    requires
        eff@.len() == d@.len(),
        m@.len() == d@.len(),
        forall|i: int| 0 <= i < d@.len() ==> (#[trigger] m@[i])@.len() == d@.len(),
    ensures
        match step(d@, rows_view(m@), eff@) {
            None => r is None,
            Some(v) => r matches Some(x) && x@ == v,
        },
{
    let n = d.len();
    let ghost mv = rows_view(m@);
    let mut next = copy_row(d);
    let mut i: usize = 0;
    while i < n
        invariant
            i <= n,
            n == d@.len(),
            eff@.len() == n,
            m@.len() == n,
            mv == rows_view(m@),
            forall|t: int| 0 <= t < n ==> (#[trigger] m@[t])@.len() == n,
            add_rows(d@, mv, eff@, i as int) == Some(next@),
            next@.len() == n,
        decreases n - i,
    {
        if !eff[i].is_zero() {
            let e = eff[i];
            let ghost start = next@;
            let mut j: usize = 0;
            proof {
                assert(mv[i as int] == m@[i as int]@);
            }
            while j < n
                invariant
                    j <= n,
                    i < n,
                    n == d@.len(),
                    m@.len() == n,
                    mv == rows_view(m@),
                    (m@[i as int])@.len() == n,
                    mv[i as int] == m@[i as int]@,
                    start.len() == n,
                    eff@.len() == n,
                    eff@[i as int] == e,
                    e.val() != 0,
                    add_rows(d@, mv, eff@, i as int) == Some(start),
                    add_row(start, e, mv[i as int], j as int) == Some(next@),
                    next@.len() == n,
                decreases n - j,
            {
                if !m[i][j].is_zero() {
                    match dec_checked_mul(e, m[i][j]) {
                        Some(p) => match dec_checked_add(next[j], p) {
                            Some(s) => {
                                next.set(j, s);
                            },
                            None => {
                                proof {
                                    lemma_add_row_none(start, e, mv[i as int], j + 1, n as int);
                                    lemma_add_rows_none(d@, mv, eff@, i + 1, n as int);
                                }
                                return None;
                            },
                        },
                        None => {
                            proof {
                                lemma_add_row_none(start, e, mv[i as int], j + 1, n as int);
                                lemma_add_rows_none(d@, mv, eff@, i + 1, n as int);
                            }
                            return None;
                        },
                    }
                }
                j = j + 1;
            }
        }
        i = i + 1;
    }
    Some(next)
}

/// The largest change of a round is below 10^-9 (None when a change overflows).
fn round_converged(next: &Vec<Dec>, eff: &Vec<Dec>) -> (r: Option<bool>)
    requires
        next@.len() == eff@.len(),
    ensures
        r is Some <==> deltas_ok(next@, eff@),
        r matches Some(b) ==> b == converged(next@, eff@),
        (forall|t: int| 0 <= t < next@.len() ==> (#[trigger] next@[t]).val() == eff@[t].val()) ==> r == Some(true),
{
    let ghost same = forall|t: int| 0 <= t < next@.len() ==> (#[trigger] next@[t]).val() == eff@[t].val();
    let mut max_delta = Dec::zero();
    let ghost mut wit: int = -1;
    let mut j: usize = 0;
    while j < next.len()
        invariant
            j <= next@.len(),
            next@.len() == eff@.len(),
            forall|t: int| 0 <= t < j ==> #[trigger] dec_sub_result(next@[t], eff@[t]) is Some,
            forall|t: int| 0 <= t < j ==> abs_int((#[trigger] dec_sub_result(next@[t], eff@[t]))->0.val()) <= max_delta.val(),
            -1 <= wit < j,
            wit == -1 ==> max_delta.val() == 0,
            wit >= 0 ==> abs_int(dec_sub_result(next@[wit], eff@[wit])->0.val()) == max_delta.val(),
            same == forall|t: int| 0 <= t < next@.len() ==> (#[trigger] next@[t]).val() == eff@[t].val(),
            same ==> max_delta.val() == 0,
        decreases next@.len() - j,
    {
        next[j].note_wf();
        eff[j].note_wf();
        proof {
            if same {
                let a = next@[j as int];
                let b = eff@[j as int];
                assert(a.val() == b.val());
                a.lemma_wf();
                b.lemma_wf();
                crate::decimal::lemma_pow10_pos((28 - crate::decimal::max_nat(a.scl(), b.scl())) as nat);
                assert(crate::decimal::fits_at(a.val() - b.val(), crate::decimal::max_nat(a.scl(), b.scl())));
            }
        }
        match dec_checked_sub(next[j], eff[j]) {
            Some(x) => {
                let dlt = x.abs();
                if max_delta.lt(&dlt) {
                    max_delta = dlt;
                    proof {
                        wit = j as int;
                    }
                }
            },
            None => {
                return None;
            },
        }
        j = j + 1;
    }
    let eps = match Dec::new(1, 9) {
        Some(e) => e,
        None => Dec::zero(),
    };
    proof {
        assert(eps.val() == 1 * pow10(19));
        if max_delta.val() < eps.val() {
            assert forall|t: int| 0 <= t < next@.len() implies abs_int((#[trigger] dec_sub_result(next@[t], eff@[t]))->0.val()) < pow10(19) by {
                assert(abs_int(dec_sub_result(next@[t], eff@[t])->0.val()) <= max_delta.val());
            }
        } else {
            if wit >= 0 {
                assert(dec_sub_result(next@[wit], eff@[wit]) is Some);
                assert(!(abs_int(dec_sub_result(next@[wit], eff@[wit])->0.val()) < pow10(19)));
            } else {
                assert(pow10(19) > 0) by {
                    crate::decimal::lemma_pow10_pos(19);
                }
            }
        }
    }
    proof {
        if same {
            crate::decimal::lemma_pow10_pos(19);
        }
    }
    Some(max_delta.lt(&eps))
}

proof fn lemma_zero_row(v: Seq<Dec>, e: Dec, n: nat, k: int)
    requires
        0 <= k <= n,
    ensures
        add_row(v, e, zero_matrix(n)[0], k) == Some(v),
    decreases k,
{
    Dec::lemma_zero_one();
    if k > 0 {
        lemma_zero_row(v, e, n, k - 1);
        assert(zero_matrix(n)[0][k - 1] == Dec::zero_val());
    }
}

proof fn lemma_zero_rows(d: Seq<Dec>, eff: Seq<Dec>, k: int)
    requires
        0 <= k <= d.len(),
    ensures
        add_rows(d, zero_matrix(d.len()), eff, k) == Some(d),
    decreases k,
{
    if k > 0 {
        lemma_zero_rows(d, eff, k - 1);
        let zm = zero_matrix(d.len());
        assert(zm[k - 1] =~= zm[0]);
        lemma_zero_row(d, eff[k - 1], d.len(), d.len() as int);
    }
}

/// One round over a matrix of zeros gives back the direct shares.
proof fn lemma_step_zero(d: Seq<Dec>, eff: Seq<Dec>)
    ensures
        step(d, zero_matrix(d.len()), eff) == Some(d),
{
    lemma_zero_rows(d, eff, d.len() as int);
}

/// Effective ownership of each entity, solving `eff = d + eff · M` by iteration:
/// `d` is the parent's direct share of each entity (from `parent_direct`, 0 where
/// none is given), `M[h][k]` the direct holding of entity h in entity k (summed from
/// `cross`, pairs naming an unknown entity ignored); starting from `d`, each round
/// computes `d + eff · M` (adding, row by row and column by column, the products of
/// non-zero shares and non-zero holdings), and the iteration stops after the first
/// round whose every change is below 10^-9, or after 200 rounds. The map gives each
/// entity name its share (for a repeated name, its last entity's). None exactly when
/// some sum, product or change overflows.
pub fn try_effective_ownership(
    entities: &[String],
    parent_direct: &[(String, Dec)],
    cross: &[(String, String, Dec)],
) -> (r: Option<AmountMap>)
    ensures
        r is Some <==> effective_shares(views(entities@), entries_view(parent_direct@), cross_view(cross@)) is Some,
        r matches Some(map) ==> shares_map_is(map@, views(entities@), effective_shares(
            views(entities@),
            entries_view(parent_direct@),
            cross_view(cross@),
        )->0),
        cross@.len() == 0 ==> (r matches Some(map) && shares_map_is(map@, views(entities@), direct_shares(
            views(entities@),
            entries_view(parent_direct@),
        ))),
{
    let ghost es = views(entities@);
    let ghost pd = entries_view(parent_direct@);
    let ghost cv = cross_view(cross@);
    let n = entities.len();
    let d = direct_of(entities, parent_direct);
    let m = match build_matrix(entities, cross) {
        Some(x) => x,
        None => {
            return None;
        },
    };
    let ghost mv = rows_view(m@);
    proof {
        lemma_cross_matrix_shape(es, cv);
        assert(m@.len() == n);
        assert forall|i: int| 0 <= i < n implies (#[trigger] m@[i])@.len() == n by {
            assert(mv[i] == m@[i]@);
        }
    }
    let mut eff = copy_row(&d);
    let mut round: usize = 0;
    let mut finished = false;
    while round < 200 && !finished
        invariant
            round <= 200,
            es == views(entities@),
            pd == entries_view(parent_direct@),
            cv == cross_view(cross@),
            n == es.len(),
            d@.len() == n,
            eff@.len() == n,
            m@.len() == n,
            mv == rows_view(m@),
            forall|t: int| 0 <= t < n ==> (#[trigger] m@[t])@.len() == n,
            d@ == direct_shares(es, pd),
            cross_matrix(es, cv) == Some(mv),
            !finished ==> effective_shares(es, pd, cv) == iterate(d@, mv, eff@, (200 - round) as nat),
            finished ==> effective_shares(es, pd, cv) == Some(eff@),
            cv.len() == 0 ==> eff@ == d@ && (!finished ==> round == 0) && mv == zero_matrix(n as nat),
        decreases 200 - round, (if finished { 0int } else { 1int }),
    {
        proof {
            if cv.len() == 0 {
                lemma_step_zero(d@, eff@);
            }
        }
        let next = match step_exec(&d, &m, &eff) {
            Some(x) => x,
            None => {
                proof {
                    assert(iterate(d@, mv, eff@, (200 - round) as nat) is None);
                }
                return None;
            },
        };
        proof {
            lemma_add_rows_len(d@, mv, eff@, n as int);
        }
        let done = match round_converged(&next, &eff) {
            Some(b) => b,
            None => {
                proof {
                    assert(iterate(d@, mv, eff@, (200 - round) as nat) is None);
                }
                return None;
            },
        };
        eff = next;
        if done {
            finished = true;
        } else {
            round = round + 1;
        }
    }
    proof {
        assert(effective_shares(es, pd, cv) == Some(eff@));
        if cv.len() == 0 {
            assert(eff@ == direct_shares(es, pd));
        }
    }
    let mut map = AmountMap::new();
    let mut i: usize = 0;
    proof {
        assert(es.subrange(0, 0) =~= Seq::<Seq<char>>::empty());
    }
    while i < n
        invariant
            i <= n,
            n == es.len(),
            es == views(entities@),
            eff@.len() == n,
            shares_map_is(map@, es.subrange(0, i as int), eff@),
        decreases n - i,
    {
        map.insert(entities[i].as_str(), eff[i]);
        proof {
            let p = es.subrange(0, i + 1);
            assert(p.drop_last() =~= es.subrange(0, i as int));
            assert(p.last() == entities@[i as int]@);
            assert forall|k: Seq<char>| #[trigger] lookup(map@, k) == match last_index(p, k) {
                Some(t) => Some(eff@[t]),
                None => None::<Dec>,
            } by {
                if k != entities@[i as int]@ {
                    assert(lookup(map@, k) == lookup(map@, k));
                }
            }
        }
        i = i + 1;
    }
    proof {
        assert(es.subrange(0, n as int) =~= es);
    }
    Some(map)
}

proof fn lemma_cross_matrix_shape(es: Seq<Seq<char>>, cross: Seq<(Seq<char>, Seq<char>, Dec)>)
    ensures
        cross_matrix(es, cross) matches Some(m) ==> m.len() == es.len() && forall|i: int|
            0 <= i < es.len() ==> (#[trigger] m[i]).len() == es.len(),
    decreases cross.len(),
{
    if cross.len() > 0 {
        lemma_cross_matrix_shape(es, cross.drop_last());
        if let Some(m) = cross_matrix(es, cross.drop_last()) {
            let c = cross.last();
            if let (Some(a), Some(b)) = (last_index(es, c.0), last_index(es, c.1)) {
                lemma_last_index_range(es, c.0);
                lemma_last_index_range(es, c.1);
            }
        }
    }
}

proof fn lemma_last_index_range(es: Seq<Seq<char>>, name: Seq<char>)
    ensures
        last_index(es, name) matches Some(i) ==> 0 <= i < es.len(),
    decreases es.len(),
{
    if es.len() > 0 && es.last() != name {
        lemma_last_index_range(es.drop_last(), name);
    }
}

/// Effective ownership (see `try_effective_ownership`) where nothing overflows.
pub fn effective_ownership(entities: &[String], parent_direct: &[(String, Dec)], cross: &[(String, String, Dec)]) -> (r: AmountMap)
    requires
        effective_shares(views(entities@), entries_view(parent_direct@), cross_view(cross@)) is Some,
    ensures
        shares_map_is(r@, views(entities@), effective_shares(
            views(entities@),
            entries_view(parent_direct@),
            cross_view(cross@),
        )->0),
        cross@.len() == 0 ==> shares_map_is(r@, views(entities@), direct_shares(views(entities@), entries_view(parent_direct@))),
{
    match try_effective_ownership(entities, parent_direct, cross) {
        Some(m) => m,
        None => AmountMap::new(),
    }
}

/// One shareholding: `holder` holds `pct` of `held`; `is_parent` marks the parent's
/// own holdings (the holder is then not an entity of the group).
#[derive(Debug, Clone)]
pub struct ShareRow {
    pub holder: String,
    pub held: String,
    pub pct: Dec,
    pub is_parent: bool,
}

/// The inputs of the effective-ownership computation gathered from shareholdings.
#[derive(Debug)]
pub struct OwnershipInputs {
    /// Every entity named, ascending, each once.
    pub entities: Vec<String>,
    /// The parent's direct share of each entity.
    pub parent_direct: AmountMap,
    /// The holdings between entities, one per (holder, held) pair.
    pub cross: Vec<(String, String, Dec)>,
}

/// A shareholding counts when it names the held entity.
pub open spec fn row_used(r: ShareRow) -> bool {
    r.held@.len() > 0
}

/// A holding between two entities of the group.
pub open spec fn row_cross(r: ShareRow) -> bool {
    row_used(r) && !r.is_parent && r.holder@.len() > 0
}

/// The parent's holdings as keyed rows (kept when they count).
pub open spec fn parent_keyed(rows: Seq<ShareRow>) -> Seq<(Seq<char>, Dec, bool)> {
    rows.map_values(|r: ShareRow| (r.held@, r.pct, row_used(r) && r.is_parent))
}

/// The position of a (holder, held) pair among the holdings, or -1.
pub open spec fn pair_index(c: Seq<(Seq<char>, Seq<char>, Dec)>, h: Seq<char>, k: Seq<char>) -> int
    decreases c.len(),
{
    if c.len() == 0 {
        -1
    } else if c.last().0 == h && c.last().1 == k {
        c.len() - 1
    } else {
        pair_index(c.drop_last(), h, k)
    }
}

/// The holdings between entities summed per (holder, held) pair, pairs in order of
/// first appearance (None on overflow).
pub open spec fn cross_sums(rows: Seq<ShareRow>) -> Option<Seq<(Seq<char>, Seq<char>, Dec)>>
    decreases rows.len(),
{
    if rows.len() == 0 {
        Some(Seq::empty())
    } else {
        match cross_sums(rows.drop_last()) {
            None => None,
            Some(c) => {
                let r = rows.last();
                if !row_cross(r) {
                    Some(c)
                } else {
                    let p = pair_index(c, r.holder@, r.held@);
                    if p >= 0 {
                        match dec_add_result(c[p].2, r.pct) {
                            Some(x) => Some(c.update(p, (r.holder@, r.held@, x))),
                            None => None,
                        }
                    } else {
                        match dec_add_result(Dec::zero_val(), r.pct) {
                            Some(x) => Some(c.push((r.holder@, r.held@, x))),
                            None => None,
                        }
                    }
                }
            },
        }
    }
}

/// Whether an entity is named: as the held entity of a shareholding that counts, or
/// as the holder of a holding between entities.
pub open spec fn named_entity(rows: Seq<ShareRow>, t: Seq<char>) -> bool {
    exists|i: int| 0 <= i < rows.len() && ((row_used(#[trigger] rows[i]) && rows[i].held@ == t) || (row_cross(rows[i]) && rows[i].holder@ == t))
}

proof fn lemma_pair_index(c: Seq<(Seq<char>, Seq<char>, Dec)>, h: Seq<char>, k: Seq<char>)
    ensures
        -1 <= pair_index(c, h, k) < c.len(),
        pair_index(c, h, k) >= 0 ==> c[pair_index(c, h, k)].0 == h && c[pair_index(c, h, k)].1 == k,
        pair_index(c, h, k) < 0 ==> forall|j: int| 0 <= j < c.len() ==> !(c[j].0 == h && c[j].1 == k),
    decreases c.len(),
{
    if c.len() > 0 {
        lemma_pair_index(c.drop_last(), h, k);
        if !(c.last().0 == h && c.last().1 == k) {
            assert forall|j: int| 0 <= j < c.len() - 1 implies c[j] == c.drop_last()[j] by {}
        }
    }
}

proof fn lemma_cross_sums_prefix(rows: Seq<ShareRow>, k: int)
    requires
        0 <= k <= rows.len(),
        cross_sums(rows.subrange(0, k)) is None,
    ensures
        cross_sums(rows) is None,
    decreases rows.len() - k,
{
    if k < rows.len() {
        assert(rows.subrange(0, k + 1).drop_last() =~= rows.subrange(0, k));
        lemma_cross_sums_prefix(rows, k + 1);
    } else {
        assert(rows.subrange(0, k) =~= rows);
    }
}

fn find_pair(c: &Vec<(String, String, Dec)>, h: &str, k: &str) -> (r: Option<usize>)
    ensures
        match r {
            Some(p) => p as int == pair_index(cross_view(c@), h@, k@),
            None => pair_index(cross_view(c@), h@, k@) < 0,
        },
{
    let ghost cv = cross_view(c@);
    let mut i: usize = c.len();
    proof {
        assert(cv.subrange(0, cv.len() as int) =~= cv);
    }
    while i > 0
        invariant
            i <= c@.len(),
            cv == cross_view(c@),
            pair_index(cv, h@, k@) == pair_index(cv.subrange(0, i as int), h@, k@),
        decreases i,
    {
        proof {
            let p = cv.subrange(0, i as int);
            assert(p.last() == cv[i - 1]);
            assert(p.drop_last() =~= cv.subrange(0, i - 1));
        }
        if str_eq(c[i - 1].0.as_str(), h) && str_eq(c[i - 1].1.as_str(), k) {
            return Some(i - 1);
        }
        i = i - 1;
    }
    None
}

/// Gathers the inputs of the effective-ownership computation from shareholdings
/// (those naming no held entity are skipped): the parent's holdings summed per held
/// entity, the holdings between entities summed per (holder, held) pair, and every
/// entity named, ascending. None exactly when a sum overflows.
pub fn shareholding_inputs(rows: &[ShareRow]) -> (r: Option<OwnershipInputs>)
    ensures
        r is Some <==> (sum_rows(parent_keyed(rows@)) is Some && cross_sums(rows@) is Some),
        r matches Some(x) ==> {
            &&& x.parent_direct@ == sum_rows(parent_keyed(rows@))->0
            &&& cross_view(x.cross@) == cross_sums(rows@)->0
            &&& strictly_sorted(views(x.entities@))
            &&& forall|t: Seq<char>| views(x.entities@).contains(t) <==> named_entity(rows@, t)
        },
{
    let ghost pk = parent_keyed(rows@);
    let mut parent = AmountMap::new();
    let mut cross: Vec<(String, String, Dec)> = Vec::new();
    let mut ents: Vec<String> = Vec::new();
    let mut i: usize = 0;
    proof {
        assert(pk.subrange(0, 0) =~= Seq::<(Seq<char>, Dec, bool)>::empty());
        assert(rows@.subrange(0, 0) =~= Seq::<ShareRow>::empty());
        assert(cross_view(cross@) =~= Seq::<(Seq<char>, Seq<char>, Dec)>::empty());
    }
    while i < rows.len()
        invariant
            i <= rows@.len(),
            pk == parent_keyed(rows@),
            sum_rows(pk.subrange(0, i as int)) == Some(parent@),
            cross_sums(rows@.subrange(0, i as int)) == Some(cross_view(cross@)),
            strictly_sorted(views(ents@)),
            forall|t: Seq<char>| views(ents@).contains(t) <==> named_entity(rows@.subrange(0, i as int), t),
        decreases rows@.len() - i,
    {
        let ghost pre = rows@.subrange(0, i as int);
        let ghost nxt = rows@.subrange(0, i + 1);
        proof {
            assert(pk.subrange(0, i + 1).drop_last() =~= pk.subrange(0, i as int));
            assert(pk.subrange(0, i + 1).last() == pk[i as int]);
            assert(nxt.drop_last() =~= pre);
            assert(nxt.last() == rows@[i as int]);
        }
        let r = &rows[i];
        let used = !r.held.as_str().is_empty();
        if used && r.is_parent {
            if !parent.can_add(r.held.as_str(), r.pct) {
                proof {
                    assert(sum_rows(pk.subrange(0, i + 1)) is None);
                    if sum_rows(pk) is Some {
                        lemma_sum_rows_prefix(pk, i + 1);
                    }
                }
                return None;
            }
            parent.add_to(r.held.as_str(), r.pct);
        }
        let cross_row = used && !r.is_parent && !r.holder.as_str().is_empty();
        if cross_row {
            let ghost before = cross_view(cross@);
            proof {
                lemma_pair_index(before, r.holder@, r.held@);
            }
            match find_pair(&cross, r.holder.as_str(), r.held.as_str()) {
                Some(p) => match dec_checked_add(cross[p].2, r.pct) {
                    Some(x) => {
                        cross.set(p, (copy_str(r.holder.as_str()), copy_str(r.held.as_str()), x));
                        proof {
                            assert(cross_view(cross@) =~= before.update(p as int, (r.holder@, r.held@, x)));
                        }
                    },
                    None => {
                        proof {
                            assert(cross_sums(nxt) is None);
                            lemma_cross_sums_prefix(rows@, i + 1);
                        }
                        return None;
                    },
                },
                None => match dec_checked_add(Dec::zero(), r.pct) {
                    Some(x) => {
                        cross.push((copy_str(r.holder.as_str()), copy_str(r.held.as_str()), x));
                        proof {
                            assert(cross_view(cross@) =~= before.push((r.holder@, r.held@, x)));
                        }
                    },
                    None => {
                        proof {
                            assert(cross_sums(nxt) is None);
                            lemma_cross_sums_prefix(rows@, i + 1);
                        }
                        return None;
                    },
                },
            }
            insert_sorted(&mut ents, r.holder.as_str());
        }
        if used {
            insert_sorted(&mut ents, r.held.as_str());
        }
        proof {
            assert forall|t: Seq<char>| views(ents@).contains(t) <==> named_entity(nxt, t) by {
                if named_entity(nxt, t) {
                    let j = choose|j: int| 0 <= j < nxt.len() && ((row_used(#[trigger] nxt[j]) && nxt[j].held@ == t) || (row_cross(nxt[j]) && nxt[j].holder@ == t));
                    if j < i {
                        assert(pre[j] == nxt[j]);
                        assert(named_entity(pre, t));
                    }
                }
                if named_entity(pre, t) {
                    let j = choose|j: int| 0 <= j < pre.len() && ((row_used(#[trigger] pre[j]) && pre[j].held@ == t) || (row_cross(pre[j]) && pre[j].holder@ == t));
                    assert(nxt[j] == pre[j]);
                }
                if used && t == r.held@ {
                    assert(row_used(nxt[i as int]) && nxt[i as int].held@ == t);
                }
                if cross_row && t == r.holder@ {
                    assert(row_cross(nxt[i as int]) && nxt[i as int].holder@ == t);
                }
            }
        }
        i = i + 1;
    }
    proof {
        assert(pk.subrange(0, pk.len() as int) =~= pk);
        assert(rows@.subrange(0, rows@.len() as int) =~= rows@);
    }
    Some(OwnershipInputs { entities: ents, parent_direct: parent, cross })
}

} // verus!
