//! One consolidation run over a scope: nodes taken from the deepest level up, leaves
//! carrying their (translated) balances, every other node aggregating its direct
//! subordinates and adding its own adjustments and eliminations on a worksheet.
use vstd::prelude::*;
use crate::consol::types::{ScopeNode, ConsolMethod};
use crate::text::str_eq;

verus! {

/// Whether some string of a list spells `c`.
pub open spec fn has_code(cs: Seq<String>, c: Seq<char>) -> bool {
    exists|i: int| 0 <= i < cs.len() && (#[trigger] cs[i])@ == c
}

/// Whether a node's parent is among some codes.
pub open spec fn parent_in(nd: ScopeNode, s: Set<Seq<char>>) -> bool {
    match nd.parent {
        Some(p) => s.contains(p@),
        None => false,
    }
}

/// One step of growing a set of codes down the scope: the codes so far, and those of
/// the nodes whose parent is among them.
pub open spec fn grow(nodes: Seq<ScopeNode>, s: Set<Seq<char>>) -> Set<Seq<char>> {
    s.union(
        Set::new(
            |c: Seq<char>|
                exists|j: int|
                    0 <= j < nodes.len() && (#[trigger] nodes[j]).code@ == c && parent_in(nodes[j], s),
        ),
    )
}

/// The codes reached from `root` in `n` steps down the parent links.
pub open spec fn reach(nodes: Seq<ScopeNode>, root: Seq<char>, n: nat) -> Set<Seq<char>>
    decreases n,
{
    if n == 0 {
        set![root]
    } else {
        grow(nodes, reach(nodes, root, (n - 1) as nat))
    }
}

/// The subtree of a code: itself and every code below it. (Each step adds a code or
/// none, so as many steps as there are nodes reach every code below.)
pub open spec fn subtree_of(nodes: Seq<ScopeNode>, root: Seq<char>) -> Set<Seq<char>> {
    reach(nodes, root, nodes.len())
}

/// Whether a code is among some codes.
pub fn contains_code(cs: &Vec<String>, c: &str) -> (r: bool)
    ensures
        r == has_code(cs@, c@),
{
    let mut i: usize = 0;
    while i < cs.len()
        invariant
            i <= cs@.len(),
            forall|j: int| 0 <= j < i ==> (#[trigger] cs@[j])@ != c@,
        decreases cs@.len() - i,
    {
        if str_eq(cs[i].as_str(), c) {
            return true;
        }
        i = i + 1;
    }
    false
}

/// The members of the subtree of `root` (see `subtree_of`).
pub fn subtree_members(nodes: &Vec<ScopeNode>, root: &str) -> (r: Vec<String>)
    ensures
        forall|c: Seq<char>| #[trigger] has_code(r@, c) <==> subtree_of(nodes@, root@).contains(c),
{
    let mut cur: Vec<String> = Vec::new();
    cur.push(root.to_string());
    proof {
        assert(cur@[0]@ == root@);
        assert forall|c: Seq<char>| #[trigger] has_code(cur@, c) <==> reach(nodes@, root@, 0).contains(c) by {
            if has_code(cur@, c) {
                let i = choose|i: int| 0 <= i < cur@.len() && (#[trigger] cur@[i])@ == c;
                assert(i == 0);
            }
        }
    }
    let mut step: usize = 0;
    while step < nodes.len()
        invariant
            step <= nodes@.len(),
            forall|c: Seq<char>| #[trigger] has_code(cur@, c) <==> reach(nodes@, root@, step as nat).contains(c),
        decreases nodes@.len() - step,
    {
        let ghost prev = reach(nodes@, root@, step as nat);
        let mut next: Vec<String> = Vec::new();
        let mut k: usize = 0;
        while k < cur.len()
            invariant
                k <= cur@.len(),
                next@.len() == k,
                forall|i: int| 0 <= i < k ==> (#[trigger] next@[i])@ == cur@[i]@,
            decreases cur@.len() - k,
        {
            next.push(cur[k].clone());
            k = k + 1;
        }
        proof {
            assert forall|c: Seq<char>| #[trigger] has_code(next@, c) <==> has_code(cur@, c) by {
                if has_code(next@, c) {
                    let i = choose|i: int| 0 <= i < next@.len() && (#[trigger] next@[i])@ == c;
                    assert(cur@[i]@ == c);
                }
                if has_code(cur@, c) {
                    let i = choose|i: int| 0 <= i < cur@.len() && (#[trigger] cur@[i])@ == c;
                    assert(next@[i]@ == c);
                }
            }
        }
        let mut j: usize = 0;
        while j < nodes.len()
            invariant
                j <= nodes@.len(),
                forall|c: Seq<char>| #[trigger] has_code(cur@, c) <==> prev.contains(c),
                forall|c: Seq<char>|
                    #[trigger] has_code(next@, c) <==> (prev.contains(c) || exists|jj: int|
                        0 <= jj < j && (#[trigger] nodes@[jj]).code@ == c && parent_in(nodes@[jj], prev)),
            decreases nodes@.len() - j,
        {
            let nd = &nodes[j];
            let add = match &nd.parent {
                Some(p) => contains_code(&cur, p.as_str()),
                None => false,
            };
            let ghost before = next@;
            if add {
                next.push(nd.code.clone());
            }
            proof {
                assert forall|c: Seq<char>|
                    #[trigger] has_code(next@, c) <==> (prev.contains(c) || exists|jj: int|
                        0 <= jj < j + 1 && (#[trigger] nodes@[jj]).code@ == c && parent_in(nodes@[jj], prev)) by {
                    if add {
                        if has_code(next@, c) {
                            let i = choose|i: int| 0 <= i < next@.len() && (#[trigger] next@[i])@ == c;
                            if i < before.len() {
                                assert(before[i] == next@[i]);
                                assert(has_code(before, c));
                            } else {
                                assert(nodes@[j as int].code@ == c);
                            }
                        }
                        if c == nd.code@ {
                            assert(next@[before.len() as int]@ == c);
                        } else if has_code(before, c) {
                            let t = choose|t: int| 0 <= t < before.len() && (#[trigger] before[t])@ == c;
                            assert(next@[t] == before[t]);
                        }
                    } else {
                        assert(next@ == before);
                        if exists|jj: int|
                            0 <= jj < j + 1 && (#[trigger] nodes@[jj]).code@ == c && parent_in(nodes@[jj], prev) {
                            let jj = choose|jj: int|
                                0 <= jj < j + 1 && (#[trigger] nodes@[jj]).code@ == c && parent_in(nodes@[jj], prev);
                            if jj == j {
                                let p = nodes@[jj].parent->0;
                                assert(!has_code(cur@, p@));
                            }
                        }
                    }
                }
            }
            j = j + 1;
        }
        proof {
            assert forall|c: Seq<char>| #[trigger] has_code(next@, c) <==> reach(nodes@, root@, (step + 1) as nat).contains(c) by {
                assert(reach(nodes@, root@, (step + 1) as nat) == grow(nodes@, prev));
            }
        }
        cur = next;
        step = step + 1;
    }
    cur
}

/// Each node's code with the members of its subtree.
pub fn compute_subtrees(nodes: &Vec<ScopeNode>) -> (r: Vec<(String, Vec<String>)>)
    ensures
        r@.len() == nodes@.len(),
        forall|i: int|
            0 <= i < r@.len() ==> (#[trigger] r@[i]).0@ == nodes@[i].code@ && forall|c: Seq<char>|
                #[trigger] has_code(r@[i].1@, c) <==> subtree_of(nodes@, nodes@[i].code@).contains(c),
{
    let mut out: Vec<(String, Vec<String>)> = Vec::new();
    let mut i: usize = 0;
    while i < nodes.len()
        invariant
            i <= nodes@.len(),
            out@.len() == i,
            forall|j: int|
                0 <= j < i ==> (#[trigger] out@[j]).0@ == nodes@[j].code@ && forall|c: Seq<char>|
                    #[trigger] has_code(out@[j].1@, c) <==> subtree_of(nodes@, nodes@[j].code@).contains(c),
        decreases nodes@.len() - i,
    {
        let members = subtree_members(nodes, nodes[i].code.as_str());
        out.push((nodes[i].code.clone(), members));
        i = i + 1;
    }
    out
}

/// The members filed under a code (first entry).
pub open spec fn subtree_lookup(st: Seq<(String, Vec<String>)>, k: Seq<char>) -> Option<Seq<String>>
    decreases st.len(),
{
    if st.len() == 0 {
        None
    } else if st[0].0@ == k {
        Some(st[0].1@)
    } else {
        subtree_lookup(st.subrange(1, st.len() as int), k)
    }
}

/// Whether both codes are among the members found.
pub open spec fn holds_both(m: Option<Seq<String>>, a: Seq<char>, b: Seq<char>) -> bool {
    match m {
        Some(s) => has_code(s, a) && has_code(s, b),
        None => false,
    }
}

/// Whether two entities fall in the subtree of one same direct subordinate (then
/// their intercompany items are eliminated further down, not at this node).
pub open spec fn same_child_spec(kids: Seq<String>, st: Seq<(String, Vec<String>)>, a: Seq<char>, b: Seq<char>) -> bool {
    exists|i: int| 0 <= i < kids.len() && holds_both(subtree_lookup(st, (#[trigger] kids[i])@), a, b)
}

pub fn find_members<'b>(st: &'b Vec<(String, Vec<String>)>, k: &str) -> (r: Option<&'b Vec<String>>)
    ensures
        match subtree_lookup(st@, k@) {
            Some(m) => r matches Some(x) && x@ == m,
            None => r is None,
        },
{
    let mut i: usize = 0;
    proof {
        assert(st@.subrange(0, st@.len() as int) =~= st@);
    }
    while i < st.len()
        invariant
            i <= st@.len(),
            subtree_lookup(st@, k@) == subtree_lookup(st@.subrange(i as int, st@.len() as int), k@),
        decreases st@.len() - i,
    {
        let ghost rest = st@.subrange(i as int, st@.len() as int);
        proof {
            assert(rest[0] == st@[i as int]);
            assert(rest.subrange(1, rest.len() as int) =~= st@.subrange(i + 1, st@.len() as int));
        }
        if str_eq(st[i].0.as_str(), k) {
            return Some(&st[i].1);
        }
        i = i + 1;
    }
    proof {
        assert(st@.subrange(i as int, st@.len() as int) =~= Seq::<(String, Vec<String>)>::empty());
    }
    None
}

/// Whether two entities fall in the subtree of one same direct subordinate.
pub fn same_child_subtree(kids: &Vec<String>, subtrees: &Vec<(String, Vec<String>)>, a: &str, b: &str) -> (r: bool)
    ensures
        r == same_child_spec(kids@, subtrees@, a@, b@),
{
    let mut i: usize = 0;
    while i < kids.len()
        invariant
            i <= kids@.len(),
            forall|j: int| 0 <= j < i ==> !holds_both(subtree_lookup(subtrees@, (#[trigger] kids@[j])@), a@, b@),
        decreases kids@.len() - i,
    {
        match find_members(subtrees, kids[i].as_str()) {
            Some(m) => {
                if contains_code(m, a) && contains_code(m, b) {
                    return true;
                }
            },
            None => {},
        }
        i = i + 1;
    }
    false
}

/// The stored name of a consolidation method.
pub open spec fn method_text(m: ConsolMethod) -> Seq<char> {
    match m {
        ConsolMethod::Full => "full"@,
        ConsolMethod::Equity => "equity"@,
        ConsolMethod::Proportional => "proportional"@,
        ConsolMethod::Cost => "cost"@,
    }
}

/// The stored name of a consolidation method (the one `ConsolMethod::parse` reads).
pub fn method_str(m: ConsolMethod) -> (r: &'static str)
    ensures
        r@ == method_text(m),
{
    match m {
        ConsolMethod::Full => "full",
        ConsolMethod::Equity => "equity",
        ConsolMethod::Proportional => "proportional",
        ConsolMethod::Cost => "cost",
    }
}

/// Node `a` is processed before node `b`: deeper first, scope order among equals.
pub open spec fn runs_before(nodes: Seq<ScopeNode>, a: int, b: int) -> bool {
    nodes[a].level > nodes[b].level || (nodes[a].level == nodes[b].level && a < b)
}

/// A processing order: every node once, deeper levels first, scope order kept
/// among nodes of one level.
pub open spec fn is_run_order(nodes: Seq<ScopeNode>, o: Seq<usize>) -> bool {
    &&& o.len() == nodes.len()
    &&& forall|i: int| 0 <= i < o.len() ==> (#[trigger] o[i]) < nodes.len()
    &&& forall|i: int, j: int| 0 <= i < j < o.len() ==> runs_before(nodes, #[trigger] o[i] as int, #[trigger] o[j] as int)
    &&& forall|k: int| 0 <= k < nodes.len() ==> #[trigger] occurs(o, k)
}

/// Whether an index occurs in an order.
pub open spec fn occurs(o: Seq<usize>, k: int) -> bool {
    exists|i: int| 0 <= i < o.len() && #[trigger] o[i] == k
}

/// The processing order of the nodes (a stable sort by level, deepest first).
pub fn run_order(nodes: &Vec<ScopeNode>) -> (o: Vec<usize>)
    ensures
        is_run_order(nodes@, o@),
{
    let mut o: Vec<usize> = Vec::new();
    let mut i: usize = 0;
    while i < nodes.len()
        invariant
            i <= nodes@.len(),
            o@.len() == i,
            forall|x: int| 0 <= x < o@.len() ==> (#[trigger] o@[x]) < i,
            forall|x: int, y: int| 0 <= x < y < o@.len() ==> runs_before(nodes@, #[trigger] o@[x] as int, #[trigger] o@[y] as int),
            forall|k: int| 0 <= k < i ==> #[trigger] occurs(o@, k),
        decreases nodes@.len() - i,
    {
        let lv = nodes[i].level;
        let mut p: usize = 0;
        while p < o.len() && nodes[o[p]].level >= lv
            invariant
                p <= o@.len(),
                forall|x: int| 0 <= x < o@.len() ==> (#[trigger] o@[x]) < i,
                i < nodes@.len(),
                lv == nodes@[i as int].level,
                forall|x: int| 0 <= x < p ==> nodes@[(#[trigger] o@[x]) as int].level >= lv,
            decreases o@.len() - p,
        {
            p = p + 1;
        }
        let ghost old_o = o@;
        proof {
            assert forall|x: int| p <= x < old_o.len() implies nodes@[(#[trigger] old_o[x]) as int].level < lv by {
                assert(nodes@[old_o[p as int] as int].level < lv);
                if x > p {
                    assert(runs_before(nodes@, old_o[p as int] as int, old_o[x] as int));
                }
            }
        }
        o.insert(p, i);
        proof {
            assert(o@ == old_o.insert(p as int, i));
            assert forall|x: int, y: int| 0 <= x < y < o@.len() implies runs_before(nodes@, #[trigger] o@[x] as int, #[trigger] o@[y] as int) by {
                if x < p && y < p {
                    assert(o@[x] == old_o[x] && o@[y] == old_o[y]);
                } else if x < p && y == p {
                    assert(o@[x] == old_o[x]);
                } else if x < p && y > p {
                    assert(o@[x] == old_o[x] && o@[y] == old_o[y - 1]);
                } else if x == p {
                    assert(o@[y] == old_o[y - 1]);
                } else {
                    assert(o@[x] == old_o[x - 1] && o@[y] == old_o[y - 1]);
                }
            }
            assert forall|k: int| 0 <= k < i + 1 implies #[trigger] occurs(o@, k) by {
                if k == i {
                    assert(o@[p as int] == k);
                } else {
                    assert(occurs(old_o, k));
                    let x = choose|x: int| 0 <= x < old_o.len() && #[trigger] old_o[x] == k;
                    if x < p {
                        assert(o@[x] == k);
                    } else {
                        assert(o@[x + 1] == k);
                    }
                }
            }
        }
        i = i + 1;
    }
    o
}

} // verus!
