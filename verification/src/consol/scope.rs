//! Changes of the consolidation scope between two periods.
use vstd::prelude::*;
use crate::decimal::{Dec, dec_lt};
use crate::consol::types::{ScopeNode, ConsolMethod};
use crate::consol::consolidate::last_node;
use crate::order::{views, strictly_sorted, insert_sorted};
use crate::text::{seq_lt, str_eq, copy_str, lemma_seq_lt_irrefl};

verus! {

/// How one organisation's place in the scope changed.
#[derive(Debug, Clone, PartialEq)]
pub struct ScopeChange {
    pub org_code: String,
    pub org_name: String,
    /// first_time / disposal / ownership_up / ownership_down / method_change / unchanged.
    pub change_type: String,
    /// The method this period (none on a disposal).
    pub curr_method: Option<ConsolMethod>,
    /// The method last period (none for a first-time inclusion).
    pub prev_method: Option<ConsolMethod>,
    /// Ownership this period (0 on a disposal).
    pub curr_ownership: Dec,
    /// Ownership last period (0 for a first-time inclusion).
    pub prev_ownership: Dec,
}

/// The kind of change of an organisation present in both periods.
pub open spec fn kept_change_text(p: ScopeNode, c: ScopeNode) -> Seq<char> {
    if p.method != c.method {
        "method_change"@
    } else if p.ownership.val() < c.ownership.val() {
        "ownership_up"@
    } else if c.ownership.val() < p.ownership.val() {
        "ownership_down"@
    } else {
        "unchanged"@
    }
}

/// Present in both periods with the same method and the same ownership.
pub open spec fn is_unchanged(p: ScopeNode, c: ScopeNode) -> bool {
    p.method == c.method && p.ownership.val() == c.ownership.val()
}

/// Whether a code belongs on the change list: it is in either period, and, where it
/// is in both, it changed or unchanged ones are asked for too.
pub open spec fn listed(prev: Seq<ScopeNode>, curr: Seq<ScopeNode>, code: Seq<char>, include_unchanged: bool) -> bool {
    match (last_node(prev, code), last_node(curr, code)) {
        (None, None) => false,
        (Some(p), Some(c)) => include_unchanged || !is_unchanged(p, c),
        _ => true,
    }
}

/// What the change record of a code says, given its node in each period (the last
/// node with that code).
pub open spec fn change_is(r: ScopeChange, code: Seq<char>, p: Option<ScopeNode>, c: Option<ScopeNode>) -> bool {
    &&& r.org_code@ == code
    &&& match (p, c) {
        (None, Some(cn)) => {
            &&& r.org_name@ == cn.name@
            &&& r.change_type@ == "first_time"@
            &&& r.curr_method == Some(cn.method)
            &&& r.prev_method is None
            &&& r.curr_ownership == cn.ownership
            &&& r.prev_ownership == Dec::zero_val()
        },
        (Some(pn), None) => {
            &&& r.org_name@ == pn.name@
            &&& r.change_type@ == "disposal"@
            &&& r.curr_method is None
            &&& r.prev_method == Some(pn.method)
            &&& r.curr_ownership == Dec::zero_val()
            &&& r.prev_ownership == pn.ownership
        },
        (Some(pn), Some(cn)) => {
            &&& r.org_name@ == cn.name@
            &&& r.change_type@ == kept_change_text(pn, cn)
            &&& r.curr_method == Some(cn.method)
            &&& r.prev_method == Some(pn.method)
            &&& r.curr_ownership == cn.ownership
            &&& r.prev_ownership == pn.ownership
        },
        (None, None) => false,
    }
}

/// The last node with a code.
fn node_by_code<'b>(nodes: &'b [ScopeNode], k: &str) -> (r: Option<&'b ScopeNode>)
    ensures
        match last_node(nodes@, k@) {
            Some(n) => r == Some(&n),
            None => r is None,
        },
{
    let mut i: usize = nodes.len();
    proof {
        assert(nodes@.subrange(0, nodes@.len() as int) =~= nodes@);
    }
    while i > 0
        invariant
            i <= nodes@.len(),
            last_node(nodes@, k@) == last_node(nodes@.subrange(0, i as int), k@),
        decreases i,
    {
        let ghost pre = nodes@.subrange(0, i as int);
        proof {
            assert(pre.last() == nodes@[i - 1]);
            assert(pre.drop_last() =~= nodes@.subrange(0, i - 1));
        }
        if str_eq(nodes[i - 1].code.as_str(), k) {
            return Some(&nodes[i - 1]);
        }
        i = i - 1;
    }
    None
}

proof fn lemma_last_node_in(nodes: Seq<ScopeNode>, k: Seq<char>, i: int)
    requires
        0 <= i < nodes.len(),
        nodes[i].code@ == k,
    ensures
        last_node(nodes, k) is Some,
    decreases nodes.len(),
{
    if i < nodes.len() - 1 && nodes.last().code@ != k {
        assert(nodes.drop_last()[i] == nodes[i]);
        lemma_last_node_in(nodes.drop_last(), k, i);
    }
}

proof fn lemma_last_node_code(nodes: Seq<ScopeNode>, k: Seq<char>)
    ensures
        last_node(nodes, k) matches Some(n) ==> n.code@ == k && nodes.contains(n),
    decreases nodes.len(),
{
    if nodes.len() > 0 && nodes.last().code@ != k {
        lemma_last_node_code(nodes.drop_last(), k);
        if let Some(n) = last_node(nodes, k) {
            let j = choose|j: int| 0 <= j < nodes.drop_last().len() && nodes.drop_last()[j] == n;
            assert(nodes[j] == n);
        }
    } else if nodes.len() > 0 {
        assert(nodes[nodes.len() - 1] == nodes.last());
    }
}

/// Every code of either period, ascending, each once.
fn all_codes(prev: &[ScopeNode], curr: &[ScopeNode]) -> (r: Vec<String>)
    ensures
        strictly_sorted(views(r@)),
        forall|t: Seq<char>| views(r@).contains(t) <==> (last_node(prev@, t) is Some || last_node(curr@, t) is Some),
{
    let mut out: Vec<String> = Vec::new();
    let mut i: usize = 0;
    while i < prev.len()
        invariant
            i <= prev@.len(),
            strictly_sorted(views(out@)),
            forall|t: Seq<char>| views(out@).contains(t) <==> exists|j: int| 0 <= j < i && (#[trigger] prev@[j]).code@ == t,
        decreases prev@.len() - i,
    {
        insert_sorted(&mut out, prev[i].code.as_str());
        proof {
            assert forall|t: Seq<char>| views(out@).contains(t) <==> exists|j: int| 0 <= j < i + 1 && (#[trigger] prev@[j]).code@ == t by {
                if t == prev@[i as int].code@ {
                    assert(0 <= i < i + 1 && prev@[i as int].code@ == t);
                }
                if exists|j: int| 0 <= j < i + 1 && (#[trigger] prev@[j]).code@ == t {
                    let j = choose|j: int| 0 <= j < i + 1 && (#[trigger] prev@[j]).code@ == t;
                    if j < i {
                        assert(exists|j2: int| 0 <= j2 < i && (#[trigger] prev@[j2]).code@ == t);
                    }
                }
            }
        }
        i = i + 1;
    }
    let mut k: usize = 0;
    while k < curr.len()
        invariant
            k <= curr@.len(),
            strictly_sorted(views(out@)),
            forall|t: Seq<char>| views(out@).contains(t) <==> ((exists|j: int| 0 <= j < prev@.len() && (#[trigger] prev@[j]).code@ == t)
                || exists|j: int| 0 <= j < k && (#[trigger] curr@[j]).code@ == t),
        decreases curr@.len() - k,
    {
        insert_sorted(&mut out, curr[k].code.as_str());
        proof {
            assert forall|t: Seq<char>| views(out@).contains(t) <==> ((exists|j: int| 0 <= j < prev@.len() && (#[trigger] prev@[j]).code@ == t)
                || exists|j: int| 0 <= j < k + 1 && (#[trigger] curr@[j]).code@ == t) by {
                if t == curr@[k as int].code@ {
                    assert(0 <= k < k + 1 && curr@[k as int].code@ == t);
                }
                if exists|j: int| 0 <= j < k + 1 && (#[trigger] curr@[j]).code@ == t {
                    let j = choose|j: int| 0 <= j < k + 1 && (#[trigger] curr@[j]).code@ == t;
                    if j < k {
                        assert(exists|j2: int| 0 <= j2 < k && (#[trigger] curr@[j2]).code@ == t);
                    }
                }
            }
        }
        k = k + 1;
    }
    proof {
        assert forall|t: Seq<char>| views(out@).contains(t) <==> (last_node(prev@, t) is Some || last_node(curr@, t) is Some) by {
            lemma_last_node_code(prev@, t);
            lemma_last_node_code(curr@, t);
            if exists|j: int| 0 <= j < prev@.len() && (#[trigger] prev@[j]).code@ == t {
                let j = choose|j: int| 0 <= j < prev@.len() && (#[trigger] prev@[j]).code@ == t;
                lemma_last_node_in(prev@, t, j);
            }
            if exists|j: int| 0 <= j < curr@.len() && (#[trigger] curr@[j]).code@ == t {
                let j = choose|j: int| 0 <= j < curr@.len() && (#[trigger] curr@[j]).code@ == t;
                lemma_last_node_in(curr@, t, j);
            }
            if let Some(n) = last_node(prev@, t) {
                let j = choose|j: int| 0 <= j < prev@.len() && prev@[j] == n;
                assert(prev@[j].code@ == t);
            }
            if let Some(n) = last_node(curr@, t) {
                let j = choose|j: int| 0 <= j < curr@.len() && curr@[j] == n;
                assert(curr@[j].code@ == t);
            }
        }
    }
    out
}

/// The change record of a code, where it belongs on the list.
fn change_for(code: &str, p: Option<&ScopeNode>, c: Option<&ScopeNode>, include_unchanged: bool) -> (r: Option<ScopeChange>)
    ensures
        r is Some <==> match (p, c) {
            (None, None) => false,
            (Some(pn), Some(cn)) => include_unchanged || !is_unchanged(*pn, *cn),
            _ => true,
        },
        r matches Some(x) ==> change_is(x, code@, match p { Some(n) => Some(*n), None => None }, match c { Some(n) => Some(*n), None => None }),
{
    match (p, c) {
        (None, Some(cn)) => Some(ScopeChange {
            org_code: copy_str(code),
            org_name: copy_str(cn.name.as_str()),
            change_type: copy_str("first_time"),
            curr_method: Some(cn.method),
            prev_method: None,
            curr_ownership: cn.ownership,
            prev_ownership: Dec::zero(),
        }),
        (Some(pn), None) => Some(ScopeChange {
            org_code: copy_str(code),
            org_name: copy_str(pn.name.as_str()),
            change_type: copy_str("disposal"),
            curr_method: None,
            prev_method: Some(pn.method),
            curr_ownership: Dec::zero(),
            prev_ownership: pn.ownership,
        }),
        (Some(pn), Some(cn)) => {
            let up = dec_lt(pn.ownership, cn.ownership);
            let down = dec_lt(cn.ownership, pn.ownership);
            let same_method = pn.method == cn.method;
            let kind: &str = if !same_method {
                "method_change"
            } else if up {
                "ownership_up"
            } else if down {
                "ownership_down"
            } else {
                "unchanged"
            };
            if same_method && !up && !down && !include_unchanged {
                None
            } else {
                Some(ScopeChange {
                    org_code: copy_str(code),
                    org_name: copy_str(cn.name.as_str()),
                    change_type: copy_str(kind),
                    curr_method: Some(cn.method),
                    prev_method: Some(pn.method),
                    curr_ownership: cn.ownership,
                    prev_ownership: pn.ownership,
                })
            }
        },
        (None, None) => None,
    }
}

/// Compares two periods' scopes: every organisation of either period, ascending by
/// code, classified as first-time inclusion, disposal, method change, ownership up
/// or down, or unchanged (listed only when `include_unchanged`). Where a code occurs
/// more than once in a period, its last node counts.
pub fn diff_scope(prev: &[ScopeNode], curr: &[ScopeNode], include_unchanged: bool) -> (r: Vec<ScopeChange>)
    ensures
        forall|i: int, j: int| 0 <= i < j < r@.len() ==> seq_lt(r@[i].org_code@, r@[j].org_code@),
        forall|i: int| 0 <= i < r@.len() ==> {
            let code = (#[trigger] r@[i]).org_code@;
            &&& listed(prev@, curr@, code, include_unchanged)
            &&& change_is(r@[i], code, last_node(prev@, code), last_node(curr@, code))
        },
        forall|code: Seq<char>| listed(prev@, curr@, code, include_unchanged) ==> exists|i: int|
            0 <= i < r@.len() && (#[trigger] r@[i]).org_code@ == code,
{
    let codes = all_codes(prev, curr);
    let ghost cv = views(codes@);
    let mut out: Vec<ScopeChange> = Vec::new();
    let mut k: usize = 0;
    while k < codes.len()
        invariant
            k <= codes@.len(),
            cv == views(codes@),
            strictly_sorted(cv),
            forall|t: Seq<char>| cv.contains(t) <==> (last_node(prev@, t) is Some || last_node(curr@, t) is Some),
            forall|i: int, j: int| 0 <= i < j < out@.len() ==> seq_lt(out@[i].org_code@, out@[j].org_code@),
            forall|i: int| 0 <= i < out@.len() ==> exists|j: int| 0 <= j < k && (#[trigger] out@[i]).org_code@ == cv[j],
            forall|i: int| 0 <= i < out@.len() ==> {
                let code = (#[trigger] out@[i]).org_code@;
                &&& listed(prev@, curr@, code, include_unchanged)
                &&& change_is(out@[i], code, last_node(prev@, code), last_node(curr@, code))
            },
            forall|j: int| 0 <= j < k && listed(prev@, curr@, #[trigger] cv[j], include_unchanged) ==> exists|i: int|
                0 <= i < out@.len() && out@[i].org_code@ == cv[j],
        decreases codes@.len() - k,
    {
        let code = codes[k].as_str();
        assert(code@ == cv[k as int]);
        let p = node_by_code(prev, code);
        let c = node_by_code(curr, code);
        let ghost before = out@;
        let rec = change_for(code, p, c, include_unchanged);
        proof {
            assert(rec is Some <==> listed(prev@, curr@, code@, include_unchanged));
            if rec is None && p is None && c is None {
                assert(cv.contains(cv[k as int]));
            }
        }
        match rec {
            Some(x) => {
                out.push(x);
                proof {
                    lemma_push_step(before, out@, cv, k as int, prev@, curr@, include_unchanged);
                }
            },
            None => {
                proof {
                    lemma_skip_step(out@, cv, k as int, prev@, curr@, include_unchanged);
                }
            },
        }
        k = k + 1;
    }
    proof {
        assert forall|code: Seq<char>| listed(prev@, curr@, code, include_unchanged) implies exists|i: int|
            0 <= i < out@.len() && (#[trigger] out@[i]).org_code@ == code by {
            assert(cv.contains(code));
            let j = choose|j: int| 0 <= j < cv.len() && cv[j] == code;
            assert(listed(prev@, curr@, cv[j], include_unchanged));
        }
    }
    out
}

proof fn lemma_push_step(
    before: Seq<ScopeChange>,
    out: Seq<ScopeChange>,
    cv: Seq<Seq<char>>,
    k: int,
    prev: Seq<ScopeNode>,
    curr: Seq<ScopeNode>,
    inc: bool,
)
    requires
        0 <= k < cv.len(),
        strictly_sorted(cv),
        out.len() == before.len() + 1,
        forall|i: int| 0 <= i < before.len() ==> out[i] == before[i],
        out[before.len() as int].org_code@ == cv[k],
        listed(prev, curr, cv[k], inc),
        change_is(out[before.len() as int], cv[k], last_node(prev, cv[k]), last_node(curr, cv[k])),
        forall|i: int, j: int| 0 <= i < j < before.len() ==> seq_lt(before[i].org_code@, before[j].org_code@),
        forall|i: int| 0 <= i < before.len() ==> exists|j: int| 0 <= j < k && (#[trigger] before[i]).org_code@ == cv[j],
        forall|i: int| 0 <= i < before.len() ==> {
            let code = (#[trigger] before[i]).org_code@;
            &&& listed(prev, curr, code, inc)
            &&& change_is(before[i], code, last_node(prev, code), last_node(curr, code))
        },
        forall|j: int| 0 <= j < k && listed(prev, curr, #[trigger] cv[j], inc) ==> exists|i: int|
            0 <= i < before.len() && before[i].org_code@ == cv[j],
    ensures
        forall|i: int, j: int| 0 <= i < j < out.len() ==> seq_lt(out[i].org_code@, out[j].org_code@),
        forall|i: int| 0 <= i < out.len() ==> exists|j: int| 0 <= j < k + 1 && (#[trigger] out[i]).org_code@ == cv[j],
        forall|i: int| 0 <= i < out.len() ==> {
            let code = (#[trigger] out[i]).org_code@;
            &&& listed(prev, curr, code, inc)
            &&& change_is(out[i], code, last_node(prev, code), last_node(curr, code))
        },
        forall|j: int| 0 <= j < k + 1 && listed(prev, curr, #[trigger] cv[j], inc) ==> exists|i: int|
            0 <= i < out.len() && out[i].org_code@ == cv[j],
{
    let n = before.len() as int;
    assert forall|i: int| 0 <= i < n implies seq_lt(out[i].org_code@, cv[k]) by {
        assert(out[i] == before[i]);
        let j = choose|j: int| 0 <= j < k && before[i].org_code@ == cv[j];
        assert(seq_lt(cv[j], cv[k]));
    }
    assert forall|i: int, j: int| 0 <= i < j < out.len() implies seq_lt(out[i].org_code@, out[j].org_code@) by {
        if j < n {
            assert(out[i] == before[i] && out[j] == before[j]);
        }
    }
    assert forall|i: int| 0 <= i < out.len() implies exists|j: int| 0 <= j < k + 1 && (#[trigger] out[i]).org_code@ == cv[j] by {
        if i < n {
            assert(out[i] == before[i]);
            let j = choose|j: int| 0 <= j < k && before[i].org_code@ == cv[j];
            assert(0 <= j < k + 1 && out[i].org_code@ == cv[j]);
        } else {
            assert(0 <= k < k + 1 && out[i].org_code@ == cv[k]);
        }
    }
    assert forall|i: int| 0 <= i < out.len() implies {
        let code = (#[trigger] out[i]).org_code@;
        &&& listed(prev, curr, code, inc)
        &&& change_is(out[i], code, last_node(prev, code), last_node(curr, code))
    } by {
        if i < n {
            assert(out[i] == before[i]);
        }
    }
    assert forall|j: int| 0 <= j < k + 1 && listed(prev, curr, #[trigger] cv[j], inc) implies exists|i: int|
        0 <= i < out.len() && out[i].org_code@ == cv[j] by {
        if j < k {
            let i = choose|i: int| 0 <= i < before.len() && before[i].org_code@ == cv[j];
            assert(out[i] == before[i]);
        } else {
            assert(out[n].org_code@ == cv[j]);
        }
    }
}

proof fn lemma_skip_step(
    out: Seq<ScopeChange>,
    cv: Seq<Seq<char>>,
    k: int,
    prev: Seq<ScopeNode>,
    curr: Seq<ScopeNode>,
    inc: bool,
)
    requires
        0 <= k < cv.len(),
        !listed(prev, curr, cv[k], inc),
        forall|i: int| 0 <= i < out.len() ==> exists|j: int| 0 <= j < k && (#[trigger] out[i]).org_code@ == cv[j],
        forall|j: int| 0 <= j < k && listed(prev, curr, #[trigger] cv[j], inc) ==> exists|i: int|
            0 <= i < out.len() && out[i].org_code@ == cv[j],
    ensures
        forall|i: int| 0 <= i < out.len() ==> exists|j: int| 0 <= j < k + 1 && (#[trigger] out[i]).org_code@ == cv[j],
        forall|j: int| 0 <= j < k + 1 && listed(prev, curr, #[trigger] cv[j], inc) ==> exists|i: int|
            0 <= i < out.len() && out[i].org_code@ == cv[j],
{
    assert forall|i: int| 0 <= i < out.len() implies exists|j: int| 0 <= j < k + 1 && (#[trigger] out[i]).org_code@ == cv[j] by {
        let j = choose|j: int| 0 <= j < k && out[i].org_code@ == cv[j];
        assert(0 <= j < k + 1 && out[i].org_code@ == cv[j]);
    }
}

/// The number of changes of a type.
pub open spec fn count_type(v: Seq<ScopeChange>, t: Seq<char>) -> nat
    decreases v.len(),
{
    if v.len() == 0 {
        0
    } else {
        count_type(v.drop_last(), t) + if v.last().change_type@ == t {
            1nat
        } else {
            0nat
        }
    }
}

proof fn lemma_count_type_pos(v: Seq<ScopeChange>, t: Seq<char>)
    ensures
        count_type(v, t) > 0 <==> exists|i: int| 0 <= i < v.len() && (#[trigger] v[i]).change_type@ == t,
        count_type(v, t) <= v.len(),
    decreases v.len(),
{
    if v.len() > 0 {
        lemma_count_type_pos(v.drop_last(), t);
        if exists|i: int| 0 <= i < v.len() && (#[trigger] v[i]).change_type@ == t {
            let i = choose|i: int| 0 <= i < v.len() && (#[trigger] v[i]).change_type@ == t;
            if i < v.len() - 1 {
                assert(v.drop_last()[i] == v[i]);
            }
        }
        if exists|i: int| 0 <= i < v.len() - 1 && (#[trigger] v.drop_last()[i]).change_type@ == t {
            let i = choose|i: int| 0 <= i < v.len() - 1 && (#[trigger] v.drop_last()[i]).change_type@ == t;
            assert(v[i] == v.drop_last()[i]);
        }
    }
}

/// How many changes there are of each type, types ascending.
pub fn change_type_counts(changes: &[ScopeChange]) -> (r: Vec<(String, usize)>)
    ensures
        forall|i: int, j: int| 0 <= i < j < r@.len() ==> seq_lt(r@[i].0@, r@[j].0@),
        forall|i: int| 0 <= i < r@.len() ==> (#[trigger] r@[i]).1 == count_type(changes@, r@[i].0@) && r@[i].1 > 0,
        forall|t: Seq<char>| count_type(changes@, t) > 0 ==> exists|i: int| 0 <= i < r@.len() && (#[trigger] r@[i]).0@ == t,
{
    let mut types: Vec<String> = Vec::new();
    let mut i: usize = 0;
    while i < changes.len()
        invariant
            i <= changes@.len(),
            strictly_sorted(views(types@)),
            forall|t: Seq<char>| views(types@).contains(t) <==> exists|j: int| 0 <= j < i && (#[trigger] changes@[j]).change_type@ == t,
        decreases changes@.len() - i,
    {
        insert_sorted(&mut types, changes[i].change_type.as_str());
        proof {
            assert forall|t: Seq<char>| views(types@).contains(t) <==> exists|j: int| 0 <= j < i + 1 && (#[trigger] changes@[j]).change_type@ == t by {
                if t == changes@[i as int].change_type@ {
                    assert(0 <= i < i + 1 && changes@[i as int].change_type@ == t);
                }
                if exists|j: int| 0 <= j < i + 1 && (#[trigger] changes@[j]).change_type@ == t {
                    let j = choose|j: int| 0 <= j < i + 1 && (#[trigger] changes@[j]).change_type@ == t;
                    if j < i {
                        assert(exists|j2: int| 0 <= j2 < i && (#[trigger] changes@[j2]).change_type@ == t);
                    }
                }
            }
        }
        i = i + 1;
    }
    let ghost tv = views(types@);
    let mut out: Vec<(String, usize)> = Vec::new();
    let mut k: usize = 0;
    while k < types.len()
        invariant
            k <= types@.len(),
            tv == views(types@),
            strictly_sorted(tv),
            forall|t: Seq<char>| tv.contains(t) <==> exists|j: int| 0 <= j < changes@.len() && (#[trigger] changes@[j]).change_type@ == t,
            out@.len() == k,
            forall|a: int| 0 <= a < k ==> (#[trigger] out@[a]).0@ == tv[a] && out@[a].1 == count_type(changes@, tv[a]) && out@[a].1 > 0,
        decreases types@.len() - k,
    {
        let t = types[k].as_str();
        let mut c: usize = 0;
        let mut j: usize = 0;
        proof {
            assert(changes@.subrange(0, 0) =~= Seq::<ScopeChange>::empty());
        }
        while j < changes.len()
            invariant
                j <= changes@.len(),
                c == count_type(changes@.subrange(0, j as int), t@),
                c <= j,
            decreases changes@.len() - j,
        {
            proof {
                let p = changes@.subrange(0, j + 1);
                assert(p.drop_last() =~= changes@.subrange(0, j as int));
                assert(p.last() == changes@[j as int]);
            }
            if str_eq(changes[j].change_type.as_str(), t) {
                c = c + 1;
            }
            j = j + 1;
        }
        proof {
            assert(changes@.subrange(0, changes@.len() as int) =~= changes@);
            assert(t@ == tv[k as int]);
            assert(tv.contains(tv[k as int]));
            lemma_count_type_pos(changes@, t@);
        }
        out.push((copy_str(t), c));
        k = k + 1;
    }
    proof {
        assert forall|t: Seq<char>| count_type(changes@, t) > 0 implies exists|i: int| 0 <= i < out@.len() && (#[trigger] out@[i]).0@ == t by {
            lemma_count_type_pos(changes@, t);
            assert(tv.contains(t));
            let a = choose|a: int| 0 <= a < tv.len() && tv[a] == t;
            assert(out@[a].0@ == t);
        }
    }
    out
}

} // verus!
