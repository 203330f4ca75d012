//! The consolidation worksheet: individual + adjustments + eliminations per account.
use vstd::prelude::*;
use crate::decimal::{Dec, dec_add, dec_add_result, dec_checked_add, fits_at, lemma_add_exact};
use crate::amount_map::{AmountMap, Entries, lookup, sorted_keys, lemma_index_of};
use crate::consol::types::{ElimEntry, ElimLine, WorksheetCell, fold_nets, lines_for, nets_val, line_net_val};
use crate::text::{copy_str, seq_lt, lemma_seq_lt_irrefl};

verus! {

/// Whether some line of some entry posts to the account `k`.
pub open spec fn posts_to(es: Seq<ElimEntry>, k: Seq<char>) -> bool {
    exists|i: int, j: int|
        #![trigger es[i].lines@[j]]
        0 <= i < es.len() && 0 <= j < es[i].lines@.len() && es[i].lines@[j].account@ == k
}

/// Whether some line among the first `n` lines of an entry posts to `k`.
pub open spec fn line_posts_to(e: ElimEntry, n: int, k: Seq<char>) -> bool {
    exists|j: int| 0 <= j < n && (#[trigger] e.lines@[j]).account@ == k
}

/// The amount recorded for a code, zero when absent.
pub open spec fn amount_or_zero(m: Entries, k: Seq<char>) -> Dec {
    match lookup(m, k) {
        Some(v) => v,
        None => Dec::zero_val(),
    }
}

/// The sum over entries of each entry's net effect on `k`, added the way `Decimal`
/// adds (starting from zero), None on overflow.
pub open spec fn entries_net(es: Seq<ElimEntry>, k: Seq<char>) -> Option<Dec>
    decreases es.len(),
{
    if es.len() == 0 {
        Some(Dec::zero_val())
    } else {
        match entries_net(es.drop_last(), k) {
            Some(acc) => match fold_nets(lines_for(es.last().lines@, k)) {
                Some(n) => dec_add_result(acc, n),
                None => None,
            },
            None => None,
        }
    }
}

/// The accounts a worksheet shows: those of the individual column and those the
/// entries post to.
pub open spec fn on_worksheet(ind: Entries, adj: Seq<ElimEntry>, elim: Seq<ElimEntry>, k: Seq<char>) -> bool {
    lookup(ind, k) is Some || posts_to(adj, k) || posts_to(elim, k)
}

/// individual + adjust (None on overflow).
pub open spec fn ind_plus_adj(ind: Entries, adj: Seq<ElimEntry>, k: Seq<char>) -> Option<Dec> {
    match entries_net(adj, k) {
        Some(a) => dec_add_result(amount_or_zero(ind, k), a),
        None => None,
    }
}

/// The consolidated column: individual + adjust + elim (None on overflow).
pub open spec fn consolidated_of(ind: Entries, adj: Seq<ElimEntry>, elim: Seq<ElimEntry>, k: Seq<char>) -> Option<Dec> {
    match ind_plus_adj(ind, adj, k) {
        Some(x) => match entries_net(elim, k) {
            Some(e) => dec_add_result(x, e),
            None => None,
        },
        None => None,
    }
}

/// The three columns of a cell can be added exactly at scale `s`.
pub open spec fn cell_exact(c: WorksheetCell, s: nat) -> bool {
    &&& s <= 28
    &&& c.individual.wf() && c.adjust.wf() && c.elim.wf()
    &&& c.individual.scl() <= s && c.adjust.scl() <= s && c.elim.scl() <= s
    &&& fits_at(c.individual.val() + c.adjust.val(), s)
    &&& fits_at(c.individual.val() + c.adjust.val() + c.elim.val(), s)
}

proof fn lemma_entries_net_prefix(es: Seq<ElimEntry>, k: Seq<char>, n: int)
    requires
        0 <= n <= es.len(),
        entries_net(es, k) is Some,
    ensures
        entries_net(es.subrange(0, n), k) is Some,
        n < es.len() ==> fold_nets(lines_for(es[n].lines@, k)) is Some,
    decreases es.len() - n,
{
    if n < es.len() {
        lemma_entries_net_prefix(es, k, n + 1);
        let p = es.subrange(0, n + 1);
        assert(p.drop_last() =~= es.subrange(0, n));
        assert(p.last() == es[n]);
    } else {
        assert(es.subrange(0, n) =~= es);
    }
}

/// The summed net effect of entries on one account, None on overflow.
fn try_entries_net_for(es: &[ElimEntry], k: &str) -> (r: Option<Dec>)
    ensures
        r == entries_net(es@, k@),
{
    let mut acc = Dec::zero();
    let mut i: usize = 0;
    proof {
        assert(es@.subrange(0, 0) =~= Seq::<ElimEntry>::empty());
    }
    while i < es.len()
        invariant
            i <= es@.len(),
            entries_net(es@.subrange(0, i as int), k@) == Some(acc),
        decreases es@.len() - i,
    {
        proof {
            let p = es@.subrange(0, i + 1);
            assert(p.drop_last() =~= es@.subrange(0, i as int));
            assert(p.last() == es@[i as int]);
        }
        let n = match es[i].try_net_for(k) {
            Some(n) => n,
            None => {
                proof {
                    if entries_net(es@, k@) is Some {
                        lemma_entries_net_prefix(es@, k@, i as int);
                    }
                }
                return None;
            },
        };
        acc = match dec_checked_add(acc, n) {
            Some(t) => t,
            None => {
                proof {
                    if entries_net(es@, k@) is Some {
                        lemma_entries_net_prefix(es@, k@, i + 1);
                    }
                }
                return None;
            },
        };
        i = i + 1;
    }
    proof {
        assert(es@.subrange(0, es@.len() as int) =~= es@);
    }
    Some(acc)
}

proof fn lemma_posts_to_step(es: Seq<ElimEntry>, i: int, k: Seq<char>)
    requires
        0 <= i < es.len(),
    ensures
        posts_to(es.subrange(0, i + 1), k) <==> (posts_to(es.subrange(0, i), k) || line_posts_to(
            es[i],
            es[i].lines@.len() as int,
            k,
        )),
{
    let p = es.subrange(0, i + 1);
    let q = es.subrange(0, i);
    if posts_to(p, k) {
        let (a, b) = choose|a: int, b: int|
            #![trigger p[a].lines@[b]]
            0 <= a < p.len() && 0 <= b < p[a].lines@.len() && p[a].lines@[b].account@ == k;
        if a < i {
            assert(q[a] == p[a]);
            assert(q[a].lines@[b] == p[a].lines@[b]);
        } else {
            assert(p[a] == es[i]);
            assert(es[i].lines@[b] == p[a].lines@[b]);
        }
    }
    if posts_to(q, k) {
        let (a, b) = choose|a: int, b: int|
            #![trigger q[a].lines@[b]]
            0 <= a < q.len() && 0 <= b < q[a].lines@.len() && q[a].lines@[b].account@ == k;
        assert(p[a] == q[a]);
        assert(p[a].lines@[b] == q[a].lines@[b]);
    }
    if line_posts_to(es[i], es[i].lines@.len() as int, k) {
        let b = choose|b: int| 0 <= b < es[i].lines@.len() && (#[trigger] es[i].lines@[b]).account@ == k;
        assert(p[i] == es[i]);
        assert(p[i].lines@[b] == es[i].lines@[b]);
    }
}

/// Records every account the entries post to.
fn collect_posted(start: AmountMap, es: &[ElimEntry]) -> (r: AmountMap)
    ensures
        forall|k: Seq<char>|
            #![trigger lookup(r@, k)]
            (lookup(r@, k) is Some) <==> (lookup(start@, k) is Some || posts_to(es@, k)),
{
    let mut accts = start;
    let ghost init = accts@;
    let mut i: usize = 0;
    proof {
        assert forall|k: Seq<char>| !posts_to(es@.subrange(0, 0), k) by {}
    }
    while i < es.len()
        invariant
            i <= es@.len(),
            forall|k: Seq<char>|
                #![trigger lookup(accts@, k)]
                (lookup(accts@, k) is Some) <==> (lookup(init, k) is Some || posts_to(
                    es@.subrange(0, i as int),
                    k,
                )),
        decreases es@.len() - i,
    {
        let e = &es[i];
        assert(*e == es@[i as int]);
        assert(i < es@.len());
        let mut j: usize = 0;
        proof {
            assert forall|k: Seq<char>| !line_posts_to(*e, 0, k) by {}
        }
        while j < e.lines.len()
            invariant
                i < es@.len(),
                *e == es@[i as int],
                j <= e.lines@.len(),
                forall|k: Seq<char>|
                    #![trigger lookup(accts@, k)]
                    (lookup(accts@, k) is Some) <==> (lookup(init, k) is Some || posts_to(
                        es@.subrange(0, i as int),
                        k,
                    ) || line_posts_to(*e, j as int, k)),
            decreases e.lines@.len() - j,
        {
            let ghost before = accts@;
            accts.touch(e.lines[j].account.as_str());
            proof {
                let a = e.lines@[j as int].account@;
                assert(lookup(accts@, a) is Some);
                assert(forall|k2: Seq<char>| k2 != a ==> lookup(accts@, k2) == lookup(before, k2));
                assert forall|k: Seq<char>|
                    (lookup(accts@, k) is Some) <==> (lookup(init, k) is Some || posts_to(
                        es@.subrange(0, i as int),
                        k,
                    ) || line_posts_to(*e, j + 1, k)) by {
                    if line_posts_to(*e, j + 1, k) && !line_posts_to(*e, j as int, k) {
                        let b = choose|b: int| 0 <= b < j + 1 && (#[trigger] e.lines@[b]).account@ == k;
                        assert(b == j);
                    }
                    if k == a {
                        assert(line_posts_to(*e, j + 1, k));
                    }
                    if line_posts_to(*e, j as int, k) {
                        let b = choose|b: int| 0 <= b < j && (#[trigger] e.lines@[b]).account@ == k;
                        assert(line_posts_to(*e, j + 1, k));
                    }
                }
            }
            j = j + 1;
        }
        proof {
            assert forall|k: Seq<char>|
                (lookup(accts@, k) is Some) <==> (lookup(init, k) is Some || posts_to(
                    es@.subrange(0, i + 1),
                    k,
                )) by {
                lemma_posts_to_step(es@, i as int, k);
            }
        }
        i = i + 1;
    }
    proof {
        assert(es@.subrange(0, es@.len() as int) =~= es@);
    }
    accts
}

/// A worksheet of a node: its cells in strict account order, one for each account of
/// the individual column or posted by an entry, each with the individual amount, the
/// summed adjustments, the summed eliminations and their sum, the consolidated amount.
pub open spec fn worksheet_is(
    r: Seq<WorksheetCell>,
    node: Seq<char>,
    individual: Entries,
    adjust_entries: Seq<ElimEntry>,
    elim_entries: Seq<ElimEntry>,
) -> bool {
    &&& forall|i: int, j: int| 0 <= i < j < r.len() ==> seq_lt(#[trigger] r[i].account@, #[trigger] r[j].account@)
    &&& forall|k: Seq<char>|
        on_worksheet(individual, adjust_entries, elim_entries, k) <==> exists|i: int|
            0 <= i < r.len() && (#[trigger] r[i]).account@ == k
    &&& forall|i: int|
        0 <= i < r.len() ==> {
            let k = (#[trigger] r[i]).account@;
            &&& r[i].node@ == node
            &&& r[i].individual == amount_or_zero(individual, k)
            &&& r[i].adjust == entries_net(adjust_entries, k)->0
            &&& r[i].elim == entries_net(elim_entries, k)->0
            &&& consolidated_of(individual, adjust_entries, elim_entries, k) is Some
            &&& r[i].consolidated == consolidated_of(individual, adjust_entries, elim_entries, k)->0
        }
    &&& forall|i: int, s: nat|
        0 <= i < r.len() && #[trigger] cell_exact(r[i], s) ==> r[i].consolidated.val() == r[i].individual.val()
            + r[i].adjust.val() + r[i].elim.val()
}

/// Assembles the worksheet of a node: for every account of the individual column or
/// posted by an adjustment or elimination entry, in account order, the individual
/// amount, the summed adjustments, the summed eliminations and the consolidated
/// amount individual + adjust + elim.
pub fn worksheet(
    node: &str,
    individual: &AmountMap,
    adjust_entries: &[ElimEntry],
    elim_entries: &[ElimEntry],
) -> (r: Vec<WorksheetCell>)
    requires
        forall|k: Seq<char>|
            on_worksheet(individual@, adjust_entries@, elim_entries@, k) ==> (#[trigger] consolidated_of(
                individual@,
                adjust_entries@,
                elim_entries@,
                k,
            )) is Some,
    ensures
        forall|i: int, j: int| 0 <= i < j < r.len() ==> seq_lt(#[trigger] r[i].account@, #[trigger] r[j].account@),
        forall|k: Seq<char>|
            on_worksheet(individual@, adjust_entries@, elim_entries@, k) <==> exists|i: int|
                0 <= i < r.len() && (#[trigger] r[i]).account@ == k,
        forall|i: int|
            0 <= i < r.len() ==> {
                let k = (#[trigger] r[i]).account@;
                &&& r[i].node@ == node@
                &&& r[i].individual == amount_or_zero(individual@, k)
                &&& r[i].adjust == entries_net(adjust_entries@, k)->0
                &&& r[i].elim == entries_net(elim_entries@, k)->0
                &&& r[i].consolidated == consolidated_of(individual@, adjust_entries@, elim_entries@, k)->0
            },
        forall|i: int, s: nat|
            0 <= i < r.len() && #[trigger] cell_exact(r[i], s) ==> r[i].consolidated.val() == r[i].individual.val()
                + r[i].adjust.val() + r[i].elim.val(),
{
    match try_worksheet(node, individual, adjust_entries, elim_entries) {
        Some(cells) => {
            proof {
                assert(worksheet_is(cells@, node@, individual@, adjust_entries@, elim_entries@));
            }
            cells
        },
        None => Vec::new(),
    }
}

/// The worksheet, or None when the consolidated amount of some account overflows.
pub fn try_worksheet(
    node: &str,
    individual: &AmountMap,
    adjust_entries: &[ElimEntry],
    elim_entries: &[ElimEntry],
) -> (r: Option<Vec<WorksheetCell>>)
    ensures
        r is None <==> exists|k: Seq<char>|
            on_worksheet(individual@, adjust_entries@, elim_entries@, k) && (#[trigger] consolidated_of(
                individual@,
                adjust_entries@,
                elim_entries@,
                k,
            )) is None,
        r matches Some(cells) ==> worksheet_is(cells@, node@, individual@, adjust_entries@, elim_entries@),
{
    let mut accts = AmountMap::new();
    let mut i: usize = 0;
    while i < individual.len()
        invariant
            i <= individual@.len(),
            forall|k: Seq<char>|
                (lookup(accts@, k) is Some) <==> exists|ii: int| 0 <= ii < i && (#[trigger] individual@[ii]).0 == k,
        decreases individual@.len() - i,
    {
        let (k, _v) = individual.entry(i);
        let ghost before = accts@;
        accts.touch(k);
        proof {
            assert(lookup(accts@, k@) is Some);
            assert(forall|k2: Seq<char>| k2 != k@ ==> lookup(accts@, k2) == lookup(before, k2));
            assert forall|k2: Seq<char>|
                (lookup(accts@, k2) is Some) <==> exists|ii: int| 0 <= ii < i + 1 && (#[trigger] individual@[ii]).0 == k2 by {
                if k2 == k@ {
                    assert(individual@[i as int].0 == k2);
                }
            }
        }
        i = i + 1;
    }
    proof {
        assert forall|k: Seq<char>| (lookup(accts@, k) is Some) <==> (lookup(individual@, k) is Some) by {
            lemma_index_of(individual@, k);
            if lookup(individual@, k) is Some {
                let ii = crate::amount_map::index_of(individual@, k);
                assert(individual@[ii].0 == k);
            }
        }
    }
    let accts = collect_posted(accts, adjust_entries);
    let accts = collect_posted(accts, elim_entries);
    accts.note_sorted();
    let ghost keys = accts@;
    let mut out: Vec<WorksheetCell> = Vec::new();
    let mut j: usize = 0;
    while j < accts.len()
        invariant
            keys == accts@,
            sorted_keys(keys),
            j <= keys.len(),
            out@.len() == j,
            forall|k: Seq<char>|
                #![trigger lookup(keys, k)]
                (lookup(keys, k) is Some) <==> on_worksheet(individual@, adjust_entries@, elim_entries@, k),
            forall|ii: int| 0 <= ii < j ==> (#[trigger] out@[ii]).account@ == keys[ii].0,
            forall|ii: int|
                0 <= ii < j ==> {
                    let k = (#[trigger] out@[ii]).account@;
                    &&& out@[ii].node@ == node@
                    &&& out@[ii].individual == amount_or_zero(individual@, k)
                    &&& out@[ii].adjust == entries_net(adjust_entries@, k)->0
                    &&& out@[ii].elim == entries_net(elim_entries@, k)->0
                    &&& consolidated_of(individual@, adjust_entries@, elim_entries@, k) is Some
                    &&& out@[ii].consolidated == consolidated_of(individual@, adjust_entries@, elim_entries@, k)->0
                    &&& out@[ii].individual.wf() && out@[ii].adjust.wf() && out@[ii].elim.wf()
                    &&& (forall|s: nat| #[trigger] cell_exact(out@[ii], s) ==> out@[ii].consolidated.val()
                        == out@[ii].individual.val() + out@[ii].adjust.val() + out@[ii].elim.val())
                },
        decreases keys.len() - j,
    {
        let (k, _z) = accts.entry(j);
        proof {
            crate::amount_map::lemma_lookup_unique(keys, k@, j as int);
            assert(on_worksheet(individual@, adjust_entries@, elim_entries@, k@));
            Dec::lemma_zero_one();
        }
        let ind = match individual.get(k) {
            Some(v) => v,
            None => Dec::zero(),
        };
        ind.note_wf();
        let ghost kk = k@;
        let adj = match try_entries_net_for(adjust_entries, k) {
            Some(v) => v,
            None => {
                proof {
                    assert(consolidated_of(individual@, adjust_entries@, elim_entries@, kk) is None);
                }
                return None;
            },
        };
        let elm = match try_entries_net_for(elim_entries, k) {
            Some(v) => v,
            None => {
                proof {
                    assert(consolidated_of(individual@, adjust_entries@, elim_entries@, kk) is None);
                }
                return None;
            },
        };
        adj.note_wf();
        elm.note_wf();
        let x = match dec_checked_add(ind, adj) {
            Some(v) => v,
            None => {
                proof {
                    assert(consolidated_of(individual@, adjust_entries@, elim_entries@, kk) is None);
                }
                return None;
            },
        };
        let cons = match dec_checked_add(x, elm) {
            Some(v) => v,
            None => {
                proof {
                    assert(consolidated_of(individual@, adjust_entries@, elim_entries@, kk) is None);
                }
                return None;
            },
        };
        let cell = WorksheetCell {
            node: copy_str(node),
            account: copy_str(k),
            individual: ind,
            adjust: adj,
            elim: elm,
            consolidated: cons,
        };
        proof {
            assert forall|s: nat| cell_exact(cell, s) implies cons.val() == ind.val() + adj.val() + elm.val() by {
                lemma_add_exact(ind, adj, s);
                lemma_add_exact(x, elm, s);
            }
        }
        out.push(cell);
        j = j + 1;
    }
    proof {
        assert forall|a: int, b: int| 0 <= a < b < out@.len() implies seq_lt(
            #[trigger] out@[a].account@,
            #[trigger] out@[b].account@,
        ) by {
            assert(out@[a].account@ == keys[a].0);
            assert(out@[b].account@ == keys[b].0);
        }
        assert forall|k: Seq<char>|
            on_worksheet(individual@, adjust_entries@, elim_entries@, k) <==> exists|ii: int|
                0 <= ii < out@.len() && (#[trigger] out@[ii]).account@ == k by {
            lemma_index_of(keys, k);
            if on_worksheet(individual@, adjust_entries@, elim_entries@, k) {
                let ii = crate::amount_map::index_of(keys, k);
                assert(out@[ii].account@ == k);
            }
            if exists|ii: int| 0 <= ii < out@.len() && (#[trigger] out@[ii]).account@ == k {
                let ii = choose|ii: int| 0 <= ii < out@.len() && (#[trigger] out@[ii]).account@ == k;
                assert(keys[ii].0 == k);
                crate::amount_map::lemma_lookup_unique(keys, k, ii);
            }
        }
    }
    Some(out)
}

// ----------------------------------------------------------------------------
// The worksheet total
// ----------------------------------------------------------------------------
/// The sum of `f` over the codes `ks`.
pub open spec fn sum_over(ks: Seq<Seq<char>>, f: spec_fn(Seq<char>) -> int) -> int
    decreases ks.len(),
{
    if ks.len() == 0 {
        0
    } else {
        sum_over(ks.drop_last(), f) + f(ks.last())
    }
}

/// The exact net effect of entries on account `k`.
pub open spec fn entries_net_val(es: Seq<ElimEntry>, k: Seq<char>) -> int
    decreases es.len(),
{
    if es.len() == 0 {
        0
    } else {
        entries_net_val(es.drop_last(), k) + nets_val(lines_for(es.last().lines@, k))
    }
}

/// The exact sum of an amount column.
pub open spec fn amounts_val(m: Entries) -> int
    decreases m.len(),
{
    if m.len() == 0 {
        0
    } else {
        amounts_val(m.drop_last()) + m.last().1.val()
    }
}

/// The exact sum of the consolidated column.
pub open spec fn consolidated_total(r: Seq<WorksheetCell>) -> int
    decreases r.len(),
{
    if r.len() == 0 {
        0
    } else {
        consolidated_total(r.drop_last()) + r.last().consolidated.val()
    }
}

proof fn lemma_sum_add(ks: Seq<Seq<char>>, f: spec_fn(Seq<char>) -> int, g: spec_fn(Seq<char>) -> int, h: spec_fn(Seq<char>) -> int)
    requires
        forall|k: Seq<char>| #[trigger] h(k) == f(k) + g(k),
    ensures
        sum_over(ks, h) == sum_over(ks, f) + sum_over(ks, g),
    decreases ks.len(),
{
    if ks.len() > 0 {
        lemma_sum_add(ks.drop_last(), f, g, h);
    }
}

proof fn lemma_sum_zero(ks: Seq<Seq<char>>, f: spec_fn(Seq<char>) -> int)
    requires
        forall|k: Seq<char>| #[trigger] f(k) == 0,
    ensures
        sum_over(ks, f) == 0,
    decreases ks.len(),
{
    if ks.len() > 0 {
        lemma_sum_zero(ks.drop_last(), f);
    }
}

/// Adding `v` at the one place `a` of distinct codes adds `v` to the sum.
proof fn lemma_sum_regroup(ks: Seq<Seq<char>>, f: spec_fn(Seq<char>) -> int, g: spec_fn(Seq<char>) -> int, a: Seq<char>, v: int)
    requires
        ks.no_duplicates(),
        forall|k: Seq<char>| #[trigger] f(k) == g(k) + if k == a {
            v
        } else {
            0int
        },
    ensures
        sum_over(ks, f) == sum_over(ks, g) + if ks.contains(a) {
            v
        } else {
            0int
        },
    decreases ks.len(),
{
    if ks.len() > 0 {
        let pre = ks.drop_last();
        assert(pre.no_duplicates()) by {
            assert forall|i: int, j: int| 0 <= i < pre.len() && 0 <= j < pre.len() && i != j implies pre[i] != pre[j] by {
                assert(pre[i] == ks[i] && pre[j] == ks[j]);
            }
        }
        lemma_sum_regroup(pre, f, g, a, v);
        if ks.last() == a {
            assert(ks.contains(a)) by {
                assert(ks[ks.len() - 1] == a);
            }
            assert(!pre.contains(a)) by {
                if pre.contains(a) {
                    let i = choose|i: int| 0 <= i < pre.len() && pre[i] == a;
                    assert(ks[i] == ks[ks.len() - 1]);
                }
            }
        } else {
            assert(ks.contains(a) == pre.contains(a)) by {
                if ks.contains(a) {
                    let i = choose|i: int| 0 <= i < ks.len() && ks[i] == a;
                    assert(pre[i] == a);
                }
                if pre.contains(a) {
                    let i = choose|i: int| 0 <= i < pre.len() && pre[i] == a;
                    assert(ks[i] == a);
                }
            }
        }
    }
}

/// Summed over codes covering every line's account, the nets of each account's
/// lines add up to the nets of all lines.
proof fn lemma_lines_regroup(ks: Seq<Seq<char>>, lines: Seq<ElimLine>)
    requires
        ks.no_duplicates(),
        forall|j: int| 0 <= j < lines.len() ==> ks.contains(#[trigger] lines[j].account@),
    ensures
        sum_over(ks, |k: Seq<char>| nets_val(lines_for(lines, k))) == nets_val(lines),
    decreases lines.len(),
{
    reveal(Seq::filter);
    let f = |k: Seq<char>| nets_val(lines_for(lines, k));
    if lines.len() == 0 {
        assert forall|k: Seq<char>| #[trigger] f(k) == 0 by {
            assert(lines_for(lines, k).len() == 0);
        }
        lemma_sum_zero(ks, f);
    } else {
        let pre = lines.drop_last();
        let x = lines.last();
        assert forall|j: int| 0 <= j < pre.len() implies ks.contains(#[trigger] pre[j].account@) by {
            assert(pre[j] == lines[j]);
        }
        lemma_lines_regroup(ks, pre);
        let g = |k: Seq<char>| nets_val(lines_for(pre, k));
        assert forall|k: Seq<char>| #[trigger] f(k) == g(k) + if k == x.account@ {
            line_net_val(x)
        } else {
            0int
        } by {
            assert(lines.drop_last() == pre);
            if x.account@ == k {
                assert(lines_for(lines, k) == lines_for(pre, k).push(x));
                assert(lines_for(lines, k).drop_last() =~= lines_for(pre, k));
            } else {
                assert(lines_for(lines, k) == lines_for(pre, k));
            }
        }
        assert(ks.contains(x.account@)) by {
            assert(lines[lines.len() - 1] == x);
        }
        lemma_sum_regroup(ks, f, g, x.account@, line_net_val(x));
    }
}

/// Summed over codes covering every posted account, the exact nets of entries on
/// each account add up to the nets of all their lines, zero where each entry
/// balances.
proof fn lemma_entries_regroup(ks: Seq<Seq<char>>, es: Seq<ElimEntry>)
    requires
        ks.no_duplicates(),
        forall|i: int, j: int|
            0 <= i < es.len() && 0 <= j < es[i].lines@.len() ==> ks.contains(#[trigger] es[i].lines@[j].account@),
        forall|i: int| 0 <= i < es.len() ==> nets_val(#[trigger] es[i].lines@) == 0,
    ensures
        sum_over(ks, |k: Seq<char>| entries_net_val(es, k)) == 0,
    decreases es.len(),
{
    let f = |k: Seq<char>| entries_net_val(es, k);
    if es.len() == 0 {
        lemma_sum_zero(ks, f);
    } else {
        let pre = es.drop_last();
        let e = es.last();
        assert forall|i: int, j: int| 0 <= i < pre.len() && 0 <= j < pre[i].lines@.len() implies ks.contains(
            #[trigger] pre[i].lines@[j].account@,
        ) by {
            assert(pre[i] == es[i]);
        }
        assert forall|i: int| 0 <= i < pre.len() implies nets_val(#[trigger] pre[i].lines@) == 0 by {
            assert(pre[i] == es[i]);
        }
        lemma_entries_regroup(ks, pre);
        assert forall|j: int| 0 <= j < e.lines@.len() implies ks.contains(#[trigger] e.lines@[j].account@) by {
            assert(es[es.len() - 1] == e);
        }
        lemma_lines_regroup(ks, e.lines@);
        assert(nets_val(es[es.len() - 1].lines@) == 0);
        lemma_sum_add(
            ks,
            |k: Seq<char>| entries_net_val(pre, k),
            |k: Seq<char>| nets_val(lines_for(e.lines@, k)),
            f,
        );
    }
}

/// Summed over codes covering every code of a sorted column, the column's amounts
/// (zero where absent) add up to the column's total.
proof fn lemma_amounts_regroup(ks: Seq<Seq<char>>, m: Entries)
    requires
        ks.no_duplicates(),
        sorted_keys(m),
        forall|j: int| 0 <= j < m.len() ==> ks.contains(#[trigger] m[j].0),
    ensures
        sum_over(ks, |k: Seq<char>| amount_or_zero(m, k).val()) == amounts_val(m),
    decreases m.len(),
{
    Dec::lemma_zero_one();
    let f = |k: Seq<char>| amount_or_zero(m, k).val();
    if m.len() == 0 {
        lemma_sum_zero(ks, f);
    } else {
        let pre = m.drop_last();
        let x = m.last();
        assert(sorted_keys(pre)) by {
            assert forall|i: int, j: int| 0 <= i < j < pre.len() implies seq_lt(#[trigger] pre[i].0, #[trigger] pre[j].0) by {
                assert(pre[i] == m[i] && pre[j] == m[j]);
            }
        }
        assert forall|j: int| 0 <= j < pre.len() implies ks.contains(#[trigger] pre[j].0) by {
            assert(pre[j] == m[j]);
        }
        lemma_amounts_regroup(ks, pre);
        assert(lookup(pre, x.0) is None) by {
            lemma_lookup_absent(pre, x.0);
            assert forall|j: int| 0 <= j < pre.len() implies (#[trigger] pre[j]).0 != x.0 by {
                assert(pre[j] == m[j]);
                assert(seq_lt(m[j].0, m[m.len() - 1].0));
                lemma_seq_lt_irrefl(x.0);
            }
        }
        let g = |k: Seq<char>| amount_or_zero(pre, k).val();
        assert forall|k: Seq<char>| #[trigger] f(k) == g(k) + if k == x.0 {
            x.1.val()
        } else {
            0int
        } by {
        }
        assert(ks.contains(x.0)) by {
            assert(m[m.len() - 1] == x);
        }
        lemma_sum_regroup(ks, f, g, x.0, x.1.val());
    }
}

proof fn lemma_lookup_absent(m: Entries, k: Seq<char>)
    ensures
        (forall|j: int| 0 <= j < m.len() ==> (#[trigger] m[j]).0 != k) ==> lookup(m, k) is None,
    decreases m.len(),
{
    if m.len() > 0 {
        lemma_lookup_absent(m.drop_last(), k);
        if forall|j: int| 0 <= j < m.len() ==> (#[trigger] m[j]).0 != k {
            assert(m[m.len() - 1].0 != k);
            assert forall|j: int| 0 <= j < m.drop_last().len() implies (#[trigger] m.drop_last()[j]).0 != k by {
                assert(m.drop_last()[j] == m[j]);
            }
        }
    }
}

/// The consolidated total: where every column holds its exact sum (no rounding or
/// overflow) and every adjustment and elimination entry balances, the consolidated
/// column of a worksheet adds up to the individual column.
pub proof fn lemma_worksheet_total(
    node: Seq<char>,
    individual: Entries,
    adjust_entries: Seq<ElimEntry>,
    elim_entries: Seq<ElimEntry>,
    r: Seq<WorksheetCell>,
)
    requires
        sorted_keys(individual),
        worksheet_is(r, node, individual, adjust_entries, elim_entries),
        forall|i: int|
            0 <= i < r.len() ==> {
                let k = (#[trigger] r[i]).account@;
                &&& r[i].adjust.val() == entries_net_val(adjust_entries, k)
                &&& r[i].elim.val() == entries_net_val(elim_entries, k)
                &&& r[i].consolidated.val() == r[i].individual.val() + r[i].adjust.val() + r[i].elim.val()
            },
        forall|i: int| 0 <= i < adjust_entries.len() ==> nets_val(#[trigger] adjust_entries[i].lines@) == 0,
        forall|i: int| 0 <= i < elim_entries.len() ==> nets_val(#[trigger] elim_entries[i].lines@) == 0,
    ensures
        consolidated_total(r) == amounts_val(individual),
{
    let ks = r.map_values(|c: WorksheetCell| c.account@);
    assert(ks.no_duplicates()) by {
        assert forall|i: int, j: int| 0 <= i < ks.len() && 0 <= j < ks.len() && i != j implies ks[i] != ks[j] by {
            lemma_seq_lt_irrefl(ks[i]);
            if i < j {
                assert(seq_lt(r[i].account@, r[j].account@));
            } else {
                assert(seq_lt(r[j].account@, r[i].account@));
            }
        }
    }
    assert forall|k: Seq<char>| on_worksheet(individual, adjust_entries, elim_entries, k) implies ks.contains(k) by {
        let i = choose|i: int| 0 <= i < r.len() && (#[trigger] r[i]).account@ == k;
        assert(ks[i] == k);
    }
    assert forall|j: int| 0 <= j < individual.len() implies ks.contains(#[trigger] individual[j].0) by {
        lemma_lookup_present(individual, j);
        assert(on_worksheet(individual, adjust_entries, elim_entries, individual[j].0));
    }
    assert forall|i: int, j: int|
        0 <= i < adjust_entries.len() && 0 <= j < adjust_entries[i].lines@.len() implies ks.contains(
        #[trigger] adjust_entries[i].lines@[j].account@,
    ) by {
        assert(posts_to(adjust_entries, adjust_entries[i].lines@[j].account@));
        assert(on_worksheet(individual, adjust_entries, elim_entries, adjust_entries[i].lines@[j].account@));
    }
    assert forall|i: int, j: int|
        0 <= i < elim_entries.len() && 0 <= j < elim_entries[i].lines@.len() implies ks.contains(
        #[trigger] elim_entries[i].lines@[j].account@,
    ) by {
        assert(posts_to(elim_entries, elim_entries[i].lines@[j].account@));
        assert(on_worksheet(individual, adjust_entries, elim_entries, elim_entries[i].lines@[j].account@));
    }
    lemma_amounts_regroup(ks, individual);
    lemma_entries_regroup(ks, adjust_entries);
    lemma_entries_regroup(ks, elim_entries);
    let fi = |k: Seq<char>| amount_or_zero(individual, k).val();
    let fa = |k: Seq<char>| entries_net_val(adjust_entries, k);
    let fe = |k: Seq<char>| entries_net_val(elim_entries, k);
    let fia = |k: Seq<char>| fi(k) + fa(k);
    let all = |k: Seq<char>| fia(k) + fe(k);
    lemma_sum_add(ks, fi, fa, fia);
    lemma_sum_add(ks, fia, fe, all);
    lemma_consolidated_total(r, all);
}

proof fn lemma_lookup_present(m: Entries, j: int)
    requires
        0 <= j < m.len(),
    ensures
        lookup(m, m[j].0) is Some,
    decreases m.len(),
{
    if m.last().0 != m[j].0 {
        assert(j < m.len() - 1);
        assert(m.drop_last()[j] == m[j]);
        lemma_lookup_present(m.drop_last(), j);
    }
}

proof fn lemma_consolidated_total(r: Seq<WorksheetCell>, f: spec_fn(Seq<char>) -> int)
    requires
        forall|i: int| 0 <= i < r.len() ==> (#[trigger] r[i]).consolidated.val() == f(r[i].account@),
    ensures
        consolidated_total(r) == sum_over(r.map_values(|c: WorksheetCell| c.account@), f),
    decreases r.len(),
{
    if r.len() > 0 {
        let pre = r.drop_last();
        assert forall|i: int| 0 <= i < pre.len() implies (#[trigger] pre[i]).consolidated.val() == f(pre[i].account@) by {
            assert(pre[i] == r[i]);
        }
        lemma_consolidated_total(pre, f);
        let ks = r.map_values(|c: WorksheetCell| c.account@);
        assert(ks.drop_last() =~= pre.map_values(|c: WorksheetCell| c.account@));
        assert(ks.last() == r.last().account@);
        assert(r[r.len() - 1] == r.last());
    }
}

} // verus!
