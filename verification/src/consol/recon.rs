//! Two-sided reconciliation of intercompany declarations.
use vstd::prelude::*;
use crate::decimal::{Dec, dec_checked_add, dec_checked_sub, dec_add_result, dec_sub_result};
use crate::text::{seq_lt, str_lt, str_eq, copy_str, lower_seq, lower_chars, chars_of, chars_eq};
use crate::order::{views, texts_lt, keys_sorted, insert_by_key};

verus! {

/// One entity's declaration of an intercompany position against a partner.
#[derive(Debug, Clone)]
pub struct IcDeclaration {
    /// The declaring entity.
    pub entity: String,
    /// The counterparty.
    pub partner: String,
    /// The kind of position (debt / sales).
    pub ic_type: String,
    /// receivable / revenue (the claim side, A) or payable / cost (side B).
    pub direction: String,
    /// The declared amount (natural sign, positive).
    pub amount: Dec,
}

/// The outcome of reconciling one pair of entities for one kind of position.
#[derive(Debug, Clone, PartialEq)]
pub struct IcReconResult {
    /// The claim (receivable / revenue) side.
    pub entity_a: String,
    /// The debt (payable / cost) side.
    pub entity_b: String,
    pub ic_type: String,
    /// Total declared on side A.
    pub a_amount: Dec,
    /// Total declared on side B.
    pub b_amount: Dec,
    /// The smaller side when both declared; what gets eliminated.
    pub matched: Dec,
    /// A − B.
    pub diff: Dec,
    /// matched / diff / one_sided.
    pub status: String,
}

/// Direction names, lower-cased, that put a declaration on the claim side.
pub open spec fn claim_text(t: Seq<char>) -> bool {
    t == "receivable"@ || t == "revenue"@ || t == "ar"@ || t == "债权"@ || t == "收入"@
}

/// Whether a declaration is on the claim side (its direction compared ASCII
/// case-insensitively).
pub open spec fn is_claim_spec(d: IcDeclaration) -> bool {
    claim_text(lower_seq(d.direction@))
}

fn is_text(t: &Vec<char>, lit: &str) -> (r: bool)
    ensures
        r == (t@ == lit@),
{
    let l = chars_of(lit);
    chars_eq(t.as_slice(), l.as_slice())
}

impl IcDeclaration {
    /// Whether this is the claim (receivable / revenue) side.
    pub fn is_claim(&self) -> (r: bool)
        ensures
            r == is_claim_spec(*self),
    {
        let t = lower_chars(self.direction.as_str());
        is_text(&t, "receivable") || is_text(&t, "revenue") || is_text(&t, "ar") || is_text(&t, "债权")
            || is_text(&t, "收入")
    }
}

/// The group of a declaration: the unordered pair of entities (smaller first) and the
/// kind of position.
pub open spec fn group_of(d: IcDeclaration) -> (Seq<char>, Seq<char>, Seq<char>) {
    if seq_lt(d.partner@, d.entity@) {
        (d.partner@, d.entity@, d.ic_type@)
    } else {
        (d.entity@, d.partner@, d.ic_type@)
    }
}

/// A declaration with a non-zero amount in group `k`.
pub open spec fn in_group(d: IcDeclaration, k: (Seq<char>, Seq<char>, Seq<char>)) -> bool {
    d.amount.val() != 0 && group_of(d) == k
}

/// Some declaration falls in group `k`.
pub open spec fn is_group(ds: Seq<IcDeclaration>, k: (Seq<char>, Seq<char>, Seq<char>)) -> bool {
    exists|i: int| 0 <= i < ds.len() && in_group(#[trigger] ds[i], k)
}

/// A declaration of group `k` on the claim side (`claim`) or the other side.
pub open spec fn on_side(d: IcDeclaration, k: (Seq<char>, Seq<char>, Seq<char>), claim: bool) -> bool {
    in_group(d, k) && is_claim_spec(d) == claim
}

/// The running total of one side of a group, in declaration order (None once a sum
/// overflows).
pub open spec fn side_sum(ds: Seq<IcDeclaration>, k: (Seq<char>, Seq<char>, Seq<char>), claim: bool) -> Option<Dec>
    decreases ds.len(),
{
    if ds.len() == 0 {
        Some(Dec::zero_val())
    } else {
        match side_sum(ds.drop_last(), k, claim) {
            Some(s) => if on_side(ds.last(), k, claim) {
                dec_add_result(s, ds.last().amount)
            } else {
                Some(s)
            },
            None => None,
        }
    }
}

/// The first declaration on one side of a group.
pub open spec fn side_first(ds: Seq<IcDeclaration>, k: (Seq<char>, Seq<char>, Seq<char>), claim: bool) -> Option<IcDeclaration>
    decreases ds.len(),
{
    if ds.len() == 0 {
        None
    } else {
        match side_first(ds.drop_last(), k, claim) {
            Some(x) => Some(x),
            None => if on_side(ds.last(), k, claim) {
                Some(ds.last())
            } else {
                None
            },
        }
    }
}

/// A group's totals and difference can be computed.
pub open spec fn group_ok(ds: Seq<IcDeclaration>, k: (Seq<char>, Seq<char>, Seq<char>)) -> bool {
    &&& side_sum(ds, k, true) is Some
    &&& side_sum(ds, k, false) is Some
    &&& dec_sub_result(side_sum(ds, k, true)->0, side_sum(ds, k, false)->0) is Some
}

/// Every group's totals and difference can be computed.
pub open spec fn recon_ok(ds: Seq<IcDeclaration>) -> bool {
    forall|k: (Seq<char>, Seq<char>, Seq<char>)| #[trigger] is_group(ds, k) ==> group_ok(ds, k)
}

/// The claim-side entity: the first claimant, else the partner named by the first
/// declaration of the other side, else empty.
pub open spec fn entity_a_of(ds: Seq<IcDeclaration>, k: (Seq<char>, Seq<char>, Seq<char>)) -> Seq<char> {
    match side_first(ds, k, true) {
        Some(x) => x.entity@,
        None => match side_first(ds, k, false) {
            Some(y) => y.partner@,
            None => Seq::empty(),
        },
    }
}

/// The other side's entity, symmetrically.
pub open spec fn entity_b_of(ds: Seq<IcDeclaration>, k: (Seq<char>, Seq<char>, Seq<char>)) -> Seq<char> {
    match side_first(ds, k, false) {
        Some(y) => y.entity@,
        None => match side_first(ds, k, true) {
            Some(x) => x.partner@,
            None => Seq::empty(),
        },
    }
}

/// The reconciliation record of group `k`.
pub open spec fn rec_is(r: IcReconResult, ds: Seq<IcDeclaration>, k: (Seq<char>, Seq<char>, Seq<char>)) -> bool {
    let a = side_sum(ds, k, true)->0;
    let b = side_sum(ds, k, false)->0;
    let both = a.val() != 0 && b.val() != 0;
    &&& r.entity_a@ == entity_a_of(ds, k)
    &&& r.entity_b@ == entity_b_of(ds, k)
    &&& r.ic_type@ == k.2
    &&& r.a_amount == a
    &&& r.b_amount == b
    &&& r.matched == (if !both {
        Dec::zero_val()
    } else if b.val() < a.val() {
        b
    } else {
        a
    })
    &&& r.diff == dec_sub_result(a, b)->0
    &&& r.status@ == (if !both {
        "one_sided"@
    } else if r.diff.val() == 0 {
        "matched"@
    } else {
        "diff"@
    })
}

/// The order of the records: by claim entity, debt entity and kind, then by the
/// group's pair.
pub open spec fn sort_key(r: IcReconResult, k: (Seq<char>, Seq<char>, Seq<char>)) -> Seq<Seq<char>> {
    seq![r.entity_a@, r.entity_b@, r.ic_type@, k.0, k.1]
}

/// `v` lists the records of the groups `ks`: one per group, each group once, in
/// strictly ascending order.
pub open spec fn recon_with(v: Seq<IcReconResult>, ds: Seq<IcDeclaration>, ks: Seq<(Seq<char>, Seq<char>, Seq<char>)>) -> bool {
    &&& ks.len() == v.len()
    &&& forall|i: int| 0 <= i < v.len() ==> is_group(ds, #[trigger] ks[i]) && group_ok(ds, ks[i]) && rec_is(v[i], ds, ks[i])
    &&& forall|k: (Seq<char>, Seq<char>, Seq<char>)| #[trigger] is_group(ds, k) ==> exists|i: int| 0 <= i < ks.len() && ks[i] == k
    &&& forall|i: int, j: int| 0 <= i < j < v.len() ==> texts_lt(sort_key(v[i], ks[i]), sort_key(v[j], ks[j]))
}

/// The reconciliation of the declarations.
pub open spec fn recon_is(v: Seq<IcReconResult>, ds: Seq<IcDeclaration>) -> bool {
    exists|ks: Seq<(Seq<char>, Seq<char>, Seq<char>)>| recon_with(v, ds, ks)
}

pub open spec fn key_view(k: (String, String, String)) -> (Seq<char>, Seq<char>, Seq<char>) {
    (k.0@, k.1@, k.2@)
}

fn group_key(d: &IcDeclaration) -> (r: (String, String, String))
    ensures
        key_view(r) == group_of(*d),
{
    if str_lt(d.partner.as_str(), d.entity.as_str()) {
        (copy_str(d.partner.as_str()), copy_str(d.entity.as_str()), copy_str(d.ic_type.as_str()))
    } else {
        (copy_str(d.entity.as_str()), copy_str(d.partner.as_str()), copy_str(d.ic_type.as_str()))
    }
}

fn same_key(a: &(String, String, String), b: &(String, String, String)) -> (r: bool)
    ensures
        r == (key_view(*a) == key_view(*b)),
{
    str_eq(a.0.as_str(), b.0.as_str()) && str_eq(a.1.as_str(), b.1.as_str()) && str_eq(a.2.as_str(), b.2.as_str())
}

/// The groups of the declarations, each once.
fn group_keys(decls: &[IcDeclaration]) -> (r: Vec<(String, String, String)>)
    ensures
        forall|i: int, j: int| 0 <= i < j < r@.len() ==> key_view(r@[i]) != key_view(r@[j]),
        forall|i: int| 0 <= i < r@.len() ==> is_group(decls@, #[trigger] key_view(r@[i])),
        forall|k: (Seq<char>, Seq<char>, Seq<char>)| #[trigger] is_group(decls@, k) ==> exists|i: int|
            0 <= i < r@.len() && key_view(r@[i]) == k,
{
    let mut out: Vec<(String, String, String)> = Vec::new();
    let mut i: usize = 0;
    while i < decls.len()
        invariant
            i <= decls@.len(),
            forall|a: int, b: int| 0 <= a < b < out@.len() ==> key_view(out@[a]) != key_view(out@[b]),
            forall|a: int| 0 <= a < out@.len() ==> is_group(decls@, #[trigger] key_view(out@[a])),
            forall|j: int| 0 <= j < i && (#[trigger] decls@[j]).amount.val() != 0 ==> exists|a: int|
                0 <= a < out@.len() && key_view(out@[a]) == group_of(decls@[j]),
        decreases decls@.len() - i,
    {
        if !decls[i].amount.is_zero() {
            let k = group_key(&decls[i]);
            let mut found = false;
            let mut p: usize = 0;
            while p < out.len()
                invariant
                    p <= out@.len(),
                    !found ==> forall|a: int| 0 <= a < p ==> key_view(out@[a]) != key_view(k),
                    found ==> exists|a: int| 0 <= a < out@.len() && key_view(out@[a]) == key_view(k),
                decreases out@.len() - p,
            {
                if same_key(&out[p], &k) {
                    found = true;
                }
                p = p + 1;
            }
            let ghost before = out@;
            proof {
                assert(in_group(decls@[i as int], key_view(k)));
                assert(is_group(decls@, key_view(k)));
            }
            if !found {
                out.push(k);
                proof {
                    assert forall|a: int| 0 <= a < out@.len() implies is_group(decls@, #[trigger] key_view(out@[a])) by {
                        if a < before.len() {
                            assert(out@[a] == before[a]);
                        }
                    }
                    assert forall|a: int, b: int| 0 <= a < b < out@.len() implies key_view(out@[a]) != key_view(out@[b]) by {
                        assert(out@[a] == before[a]);
                        if b < before.len() {
                            assert(out@[b] == before[b]);
                        }
                    }
                }
            }
            proof {
                assert forall|j: int| 0 <= j < i + 1 && (#[trigger] decls@[j]).amount.val() != 0 implies exists|a: int|
                    0 <= a < out@.len() && key_view(out@[a]) == group_of(decls@[j]) by {
                    if j < i {
                        let a = choose|a: int| 0 <= a < before.len() && key_view(before[a]) == group_of(decls@[j]);
                        assert(out@[a] == before[a]);
                    } else if !found {
                        assert(out@[before.len() as int] == k);
                    }
                }
            }
        }
        i = i + 1;
    }
    proof {
        assert forall|k: (Seq<char>, Seq<char>, Seq<char>)| #[trigger] is_group(decls@, k) implies exists|a: int|
            0 <= a < out@.len() && key_view(out@[a]) == k by {
            let j = choose|j: int| 0 <= j < decls@.len() && in_group(#[trigger] decls@[j], k);
            assert(decls@[j].amount.val() != 0);
        }
    }
    out
}

proof fn lemma_side_sum_none(ds: Seq<IcDeclaration>, k: (Seq<char>, Seq<char>, Seq<char>), claim: bool, i: int)
    requires
        0 <= i <= ds.len(),
        side_sum(ds.subrange(0, i), k, claim) is None,
    ensures
        side_sum(ds, k, claim) is None,
    decreases ds.len() - i,
{
    if i < ds.len() {
        let p = ds.subrange(0, i + 1);
        assert(p.drop_last() =~= ds.subrange(0, i));
        lemma_side_sum_none(ds, k, claim, i + 1);
    } else {
        assert(ds.subrange(0, i) =~= ds);
    }
}

/// The record of one group (None when a total or the difference overflows).
fn group_record(decls: &[IcDeclaration], k: &(String, String, String)) -> (r: Option<IcReconResult>)
    ensures
        r is Some <==> group_ok(decls@, key_view(*k)),
        r matches Some(x) ==> rec_is(x, decls@, key_view(*k)),
{
    let ghost kv = key_view(*k);
    let ghost ds = decls@;
    let mut a = Dec::zero();
    let mut b = Dec::zero();
    let mut fa: Option<usize> = None;
    let mut fb: Option<usize> = None;
    let mut i: usize = 0;
    proof {
        assert(ds.subrange(0, 0) =~= Seq::<IcDeclaration>::empty());
    }
    while i < decls.len()
        invariant
            i <= ds.len(),
            ds == decls@,
            kv == key_view(*k),
            side_sum(ds.subrange(0, i as int), kv, true) == Some(a),
            side_sum(ds.subrange(0, i as int), kv, false) == Some(b),
            match side_first(ds.subrange(0, i as int), kv, true) {
                Some(x) => fa matches Some(j) && j < i && ds[j as int] == x,
                None => fa is None,
            },
            match side_first(ds.subrange(0, i as int), kv, false) {
                Some(x) => fb matches Some(j) && j < i && ds[j as int] == x,
                None => fb is None,
            },
        decreases ds.len() - i,
    {
        let d = &decls[i];
        let ghost p = ds.subrange(0, i + 1);
        proof {
            assert(p.drop_last() =~= ds.subrange(0, i as int));
            assert(p.last() == ds[i as int]);
        }
        let k2 = group_key(d);
        let inside = !d.amount.is_zero() && same_key(&k2, k);
        assert(inside == in_group(ds[i as int], kv));
        if inside {
            let claim = d.is_claim();
            if claim {
                match dec_checked_add(a, d.amount) {
                    Some(s) => {
                        a = s;
                    },
                    None => {
                        proof {
                            lemma_side_sum_none(ds, kv, true, i + 1);
                        }
                        return None;
                    },
                }
                if fa.is_none() {
                    fa = Some(i);
                }
            } else {
                match dec_checked_add(b, d.amount) {
                    Some(s) => {
                        b = s;
                    },
                    None => {
                        proof {
                            lemma_side_sum_none(ds, kv, false, i + 1);
                        }
                        return None;
                    },
                }
                if fb.is_none() {
                    fb = Some(i);
                }
            }
        }
        i = i + 1;
    }
    proof {
        assert(ds.subrange(0, ds.len() as int) =~= ds);
    }
    let diff = match dec_checked_sub(a, b) {
        Some(x) => x,
        None => {
            return None;
        },
    };
    let entity_a = match fa {
        Some(j) => copy_str(decls[j].entity.as_str()),
        None => match fb {
            Some(j) => copy_str(decls[j].partner.as_str()),
            None => String::new(),
        },
    };
    let entity_b = match fb {
        Some(j) => copy_str(decls[j].entity.as_str()),
        None => match fa {
            Some(j) => copy_str(decls[j].partner.as_str()),
            None => String::new(),
        },
    };
    let both = !a.is_zero() && !b.is_zero();
    let matched = if both {
        a.min(b)
    } else {
        Dec::zero()
    };
    let status: &str = if !both {
        "one_sided"
    } else if diff.is_zero() {
        "matched"
    } else {
        "diff"
    };
    Some(IcReconResult {
        entity_a,
        entity_b,
        ic_type: copy_str(k.2.as_str()),
        a_amount: a,
        b_amount: b,
        matched,
        diff,
        status: copy_str(status),
    })
}

fn sort_key_of(r: &IcReconResult, k: &(String, String, String)) -> (s: Vec<String>)
    ensures
        views(s@) == sort_key(*r, key_view(*k)),
{
    let mut s: Vec<String> = Vec::new();
    s.push(copy_str(r.entity_a.as_str()));
    s.push(copy_str(r.entity_b.as_str()));
    s.push(copy_str(r.ic_type.as_str()));
    s.push(copy_str(k.0.as_str()));
    s.push(copy_str(k.1.as_str()));
    assert(views(s@) =~= sort_key(*r, key_view(*k)));
    s
}

proof fn lemma_new_key_fresh(
    sks: Seq<Vec<String>>,
    out: Seq<IcReconResult>,
    ks: Seq<(Seq<char>, Seq<char>, Seq<char>)>,
    src: Seq<int>,
    keys: Seq<(String, String, String)>,
    n: int,
    rec: IcReconResult,
    sk: Seq<String>,
)
    requires
        0 <= n < keys.len(),
        forall|i: int, j: int| 0 <= i < j < keys.len() ==> key_view(keys[i]) != key_view(keys[j]),
        sks.len() == out.len(),
        ks.len() == out.len(),
        src.len() == out.len(),
        forall|i: int| 0 <= i < out.len() ==> views((#[trigger] sks[i])@) == sort_key(out[i], ks[i]),
        forall|i: int| 0 <= i < out.len() ==> 0 <= #[trigger] src[i] < n && ks[i] == key_view(keys[src[i]]),
        views(sk) == sort_key(rec, key_view(keys[n])),
        rec.ic_type@ == key_view(keys[n]).2,
        forall|i: int| 0 <= i < out.len() ==> (#[trigger] out[i]).ic_type@ == ks[i].2,
    ensures
        forall|i: int| 0 <= i < sks.len() ==> views((#[trigger] sks[i])@) != views(sk),
{
    let kv = key_view(keys[n]);
    assert forall|i: int| 0 <= i < sks.len() implies views((#[trigger] sks[i])@) != views(sk) by {
        assert(0 <= src[i] < n);
        assert(key_view(keys[src[i]]) != kv);
        if views(sks[i]@) == views(sk) {
            assert(sort_key(out[i], ks[i])[2] == sort_key(rec, kv)[2]);
            assert(sort_key(out[i], ks[i])[3] == sort_key(rec, kv)[3]);
            assert(sort_key(out[i], ks[i])[4] == sort_key(rec, kv)[4]);
            assert(out[i].ic_type@ == ks[i].2);
            assert(ks[i] == kv);
        }
    }
}

proof fn lemma_insert_step(
    old_sks: Seq<Vec<String>>,
    old_out: Seq<IcReconResult>,
    old_ks: Seq<(Seq<char>, Seq<char>, Seq<char>)>,
    old_src: Seq<int>,
    old_at: Seq<int>,
    sks: Seq<Vec<String>>,
    out: Seq<IcReconResult>,
    ks: Seq<(Seq<char>, Seq<char>, Seq<char>)>,
    src: Seq<int>,
    at: Seq<int>,
    keys: Seq<(String, String, String)>,
    n: int,
    pos: int,
    ds: Seq<IcDeclaration>,
)
    requires
        0 <= n < keys.len(),
        0 <= pos <= old_out.len(),
        old_ks.len() == old_out.len(),
        old_sks.len() == old_out.len(),
        old_src.len() == old_out.len(),
        old_at.len() == n,
        out == old_out.insert(pos, out[pos]),
        sks == old_sks.insert(pos, sks[pos]),
        ks == old_ks.insert(pos, key_view(keys[n])),
        src == old_src.insert(pos, n),
        at == Seq::new(n as nat, |j: int| if old_at[j] < pos { old_at[j] } else { old_at[j] + 1 }).push(pos),
        views(sks[pos]@) == sort_key(out[pos], ks[pos]),
        is_group(ds, key_view(keys[n])),
        group_ok(ds, key_view(keys[n])),
        rec_is(out[pos], ds, key_view(keys[n])),
        forall|i: int| 0 <= i < old_out.len() ==> views((#[trigger] old_sks[i])@) == sort_key(old_out[i], old_ks[i]),
        forall|i: int| 0 <= i < old_out.len() ==> is_group(ds, #[trigger] old_ks[i]) && group_ok(ds, old_ks[i]) && rec_is(old_out[i], ds, old_ks[i]),
        forall|i: int| 0 <= i < old_out.len() ==> 0 <= #[trigger] old_src[i] < n && old_ks[i] == key_view(keys[old_src[i]]),
        forall|j: int| 0 <= j < n ==> 0 <= #[trigger] old_at[j] < old_ks.len() && old_ks[old_at[j]] == key_view(keys[j]),
    ensures
        forall|i: int| 0 <= i < out.len() ==> views((#[trigger] sks[i])@) == sort_key(out[i], ks[i]),
        forall|i: int| 0 <= i < out.len() ==> is_group(ds, #[trigger] ks[i]) && group_ok(ds, ks[i]) && rec_is(out[i], ds, ks[i]),
        src.len() == out.len(),
        forall|i: int| 0 <= i < out.len() ==> 0 <= #[trigger] src[i] < n + 1 && ks[i] == key_view(keys[src[i]]),
        at.len() == n + 1,
        forall|j: int| 0 <= j < n + 1 ==> 0 <= #[trigger] at[j] < ks.len() && ks[at[j]] == key_view(keys[j]),
{
    assert forall|i: int| 0 <= i < out.len() implies views((#[trigger] sks[i])@) == sort_key(out[i], ks[i]) by {
        if i < pos {
            assert(sks[i] == old_sks[i] && out[i] == old_out[i] && ks[i] == old_ks[i]);
        } else if i > pos {
            assert(sks[i] == old_sks[i - 1] && out[i] == old_out[i - 1] && ks[i] == old_ks[i - 1]);
        }
    }
    assert forall|i: int| 0 <= i < out.len() implies is_group(ds, #[trigger] ks[i]) && group_ok(ds, ks[i]) && rec_is(out[i], ds, ks[i]) by {
        if i < pos {
            assert(out[i] == old_out[i] && ks[i] == old_ks[i]);
        } else if i > pos {
            assert(out[i] == old_out[i - 1] && ks[i] == old_ks[i - 1]);
        }
    }
    assert forall|i: int| 0 <= i < out.len() implies 0 <= #[trigger] src[i] < n + 1 && ks[i] == key_view(keys[src[i]]) by {
        if i < pos {
            assert(src[i] == old_src[i] && ks[i] == old_ks[i]);
        } else if i > pos {
            assert(src[i] == old_src[i - 1] && ks[i] == old_ks[i - 1]);
        }
    }
    assert forall|j: int| 0 <= j < n + 1 implies 0 <= #[trigger] at[j] < ks.len() && ks[at[j]] == key_view(keys[j]) by {
        if j < n {
            let a = old_at[j];
            if a < pos {
                assert(at[j] == a && ks[a] == old_ks[a]);
            } else {
                assert(at[j] == a + 1 && ks[a + 1] == old_ks[a]);
            }
        } else {
            assert(at[j] == pos);
        }
    }
}

/// Reconciles intercompany declarations: declarations with a non-zero amount are
/// grouped by the unordered pair of entities and the kind of position; each group's
/// claim side (receivable / revenue) and other side are totalled in declaration
/// order; both sides present: matched = the smaller, else 0; diff = A − B; status
/// one_sided / matched / diff. Records come ordered by (A, B, kind), then by the
/// pair. None exactly when some group's total or difference overflows.
pub fn try_reconcile(decls: &[IcDeclaration]) -> (r: Option<Vec<IcReconResult>>)
    ensures
        r is Some <==> recon_ok(decls@),
        r matches Some(v) ==> recon_is(v@, decls@),
{
    let keys = group_keys(decls);
    let mut out: Vec<IcReconResult> = Vec::new();
    let mut sks: Vec<Vec<String>> = Vec::new();
    let ghost mut ks: Seq<(Seq<char>, Seq<char>, Seq<char>)> = Seq::empty();
    let ghost mut src: Seq<int> = Seq::empty();
    let ghost mut at: Seq<int> = Seq::empty();
    let mut n: usize = 0;
    while n < keys.len()
        invariant
            n <= keys@.len(),
            forall|i: int, j: int| 0 <= i < j < keys@.len() ==> key_view(keys@[i]) != key_view(keys@[j]),
            forall|i: int| 0 <= i < keys@.len() ==> is_group(decls@, #[trigger] key_view(keys@[i])),
            forall|k: (Seq<char>, Seq<char>, Seq<char>)| #[trigger] is_group(decls@, k) ==> exists|i: int|
                0 <= i < keys@.len() && key_view(keys@[i]) == k,
            ks.len() == out@.len(),
            sks@.len() == out@.len(),
            keys_sorted(sks@),
            forall|i: int| 0 <= i < out@.len() ==> views((#[trigger] sks@[i])@) == sort_key(out@[i], ks[i]),
            forall|i: int| 0 <= i < out@.len() ==> is_group(decls@, #[trigger] ks[i]) && group_ok(decls@, ks[i]) && rec_is(out@[i], decls@, ks[i]),
            src.len() == out@.len(),
            forall|i: int| 0 <= i < out@.len() ==> 0 <= #[trigger] src[i] < n && ks[i] == key_view(keys@[src[i]]),
            at.len() == n,
            forall|j: int| 0 <= j < n ==> 0 <= #[trigger] at[j] < ks.len() && ks[at[j]] == key_view(keys@[j]),
        decreases keys@.len() - n,
    {
        let rec = match group_record(decls, &keys[n]) {
            Some(x) => x,
            None => {
                proof {
                    assert(is_group(decls@, key_view(keys@[n as int])));
                }
                return None;
            },
        };
        let sk = sort_key_of(&rec, &keys[n]);
        let ghost kv = key_view(keys@[n as int]);
        let ghost old_ks = ks;
        let ghost old_out = out@;
        let ghost old_sks = sks@;
        let ghost old_src = src;
        let ghost old_at = at;
        proof {
            lemma_new_key_fresh(old_sks, old_out, old_ks, src, keys@, n as int, rec, sk@);
        }
        let pos = insert_by_key(&mut out, &mut sks, rec, sk);
        proof {
            ks = old_ks.insert(pos as int, kv);
            src = old_src.insert(pos as int, n as int);
            at = Seq::new(n as nat, |j: int| if old_at[j] < pos { old_at[j] } else { old_at[j] + 1 }).push(pos as int);
            lemma_insert_step(old_sks, old_out, old_ks, old_src, old_at, sks@, out@, ks, src, at, keys@, n as int, pos as int, decls@);
        }
        n = n + 1;
    }
    proof {
        assert forall|k: (Seq<char>, Seq<char>, Seq<char>)| #[trigger] is_group(decls@, k) implies group_ok(decls@, k) by {
            let j = choose|j: int| 0 <= j < keys@.len() && key_view(keys@[j]) == k;
            assert(ks[at[j]] == k);
            assert(group_ok(decls@, ks[at[j]]));
        }
        assert forall|k: (Seq<char>, Seq<char>, Seq<char>)| #[trigger] is_group(decls@, k) implies exists|i: int|
            0 <= i < ks.len() && ks[i] == k by {
            let j = choose|j: int| 0 <= j < keys@.len() && key_view(keys@[j]) == k;
            assert(ks[at[j]] == k);
        }
        assert forall|i: int, j: int| 0 <= i < j < out@.len() implies texts_lt(sort_key(out@[i], ks[i]), sort_key(out@[j], ks[j])) by {
            assert(views(sks@[i]@) == sort_key(out@[i], ks[i]));
            assert(views(sks@[j]@) == sort_key(out@[j], ks[j]));
        }
        assert(recon_with(out@, decls@, ks));
    }
    Some(out)
}

/// Reconciles intercompany declarations (see `try_reconcile`); no total or
/// difference overflows.
pub fn reconcile(decls: &[IcDeclaration]) -> (r: Vec<IcReconResult>)
    requires
        recon_ok(decls@),
    ensures
        recon_is(r@, decls@),
{
    match try_reconcile(decls) {
        Some(v) => v,
        None => Vec::new(),
    }
}

/// The reconciliation law: each record's status is `one_sided` exactly when a side
/// declared nothing, `matched` exactly when both sides declared and their difference
/// is zero, `diff` otherwise; and what is matched is the smaller side when both
/// declared and zero otherwise.
pub proof fn lemma_reconcile_law(v: Seq<IcReconResult>, ds: Seq<IcDeclaration>)
    requires
        recon_is(v, ds),
    ensures
        forall|i: int|
            0 <= i < v.len() ==> {
                let r = #[trigger] v[i];
                let both = r.a_amount.val() != 0 && r.b_amount.val() != 0;
                &&& (r.status@ == "one_sided"@ <==> !both)
                &&& (r.status@ == "matched"@ <==> both && r.diff.val() == 0)
                &&& (r.status@ == "diff"@ <==> both && r.diff.val() != 0)
                &&& r.matched == if !both {
                    Dec::zero_val()
                } else if r.b_amount.val() < r.a_amount.val() {
                    r.b_amount
                } else {
                    r.a_amount
                }
            },
{
    reveal_strlit("one_sided");
    reveal_strlit("matched");
    reveal_strlit("diff");
    let ks = choose|ks: Seq<(Seq<char>, Seq<char>, Seq<char>)>| recon_with(v, ds, ks);
    assert forall|i: int| 0 <= i < v.len() implies {
        let r = #[trigger] v[i];
        let both = r.a_amount.val() != 0 && r.b_amount.val() != 0;
        &&& (r.status@ == "one_sided"@ <==> !both)
        &&& (r.status@ == "matched"@ <==> both && r.diff.val() == 0)
        &&& (r.status@ == "diff"@ <==> both && r.diff.val() != 0)
        &&& r.matched == if !both {
            Dec::zero_val()
        } else if r.b_amount.val() < r.a_amount.val() {
            r.b_amount
        } else {
            r.a_amount
        }
    } by {
        assert(rec_is(v[i], ds, ks[i]));
        assert("one_sided"@ != "matched"@ && "one_sided"@ != "diff"@ && "matched"@ != "diff"@) by {
            assert("one_sided"@.len() == 9 && "matched"@.len() == 7 && "diff"@.len() == 4);
        }
    }
}

/// The number of records with a status.
pub open spec fn count_status(v: Seq<IcReconResult>, s: Seq<char>) -> nat
    decreases v.len(),
{
    if v.len() == 0 {
        0
    } else {
        count_status(v.drop_last(), s) + if v.last().status@ == s {
            1nat
        } else {
            0nat
        }
    }
}

/// The numbers of matched records, of records with a difference, and of the others
/// (one-sided).
pub fn status_counts(results: &[IcReconResult]) -> (r: (usize, usize, usize))
    ensures
        r.0 == count_status(results@, "matched"@),
        r.1 == count_status(results@, "diff"@),
        r.0 + r.1 + r.2 == results@.len(),
{
    let mut m: usize = 0;
    let mut d: usize = 0;
    let mut o: usize = 0;
    let mut i: usize = 0;
    proof {
        assert(results@.subrange(0, 0) =~= Seq::<IcReconResult>::empty());
        reveal_strlit("matched");
        reveal_strlit("diff");
        assert("matched"@ != "diff"@) by {
            assert("matched"@.len() != "diff"@.len());
        }
    }
    while i < results.len()
        invariant
            i <= results@.len(),
            m == count_status(results@.subrange(0, i as int), "matched"@),
            d == count_status(results@.subrange(0, i as int), "diff"@),
            m + d + o == i,
            "matched"@ != "diff"@,
        decreases results@.len() - i,
    {
        proof {
            let p = results@.subrange(0, i + 1);
            assert(p.drop_last() =~= results@.subrange(0, i as int));
            assert(p.last() == results@[i as int]);
        }
        if str_eq(results[i].status.as_str(), "matched") {
            m = m + 1;
        } else if str_eq(results[i].status.as_str(), "diff") {
            proof {
                assert(results@[i as int].status@ != "matched"@);
            }
            d = d + 1;
        } else {
            o = o + 1;
        }
        i = i + 1;
    }
    proof {
        assert(results@.subrange(0, results@.len() as int) =~= results@);
    }
    (m, d, o)
}

/// The adjustment a record with a difference suggests: the side that declared less
/// is raised to match the other (A more: raise B by the difference; else raise A by
/// its opposite).
pub fn adjustment_for(entity_a: &str, entity_b: &str, diff: Dec) -> (r: (String, Dec))
    ensures
        r.0@ == (if diff.val() > 0 {
            entity_b@
        } else {
            entity_a@
        }),
        r.1 == (if diff.val() > 0 {
            diff
        } else {
            diff.neg_val()
        }),
{
    if Dec::zero().lt(&diff) {
        (copy_str(entity_b), diff)
    } else {
        (copy_str(entity_a), diff.neg())
    }
}

} // verus!
