//! Sets of names kept as strictly ascending vectors.
use vstd::prelude::*;
use crate::text::{seq_lt, str_lt, str_eq, copy_str, lemma_seq_lt_total, lemma_seq_lt_trans, lemma_seq_lt_irrefl, lemma_seq_lt_asym};

verus! {

/// The texts of a sequence of strings.
pub open spec fn views(v: Seq<String>) -> Seq<Seq<char>> {
    v.map_values(|s: String| s@)
}

/// Each text comes strictly before the next (so none occurs twice).
pub open spec fn strictly_sorted(s: Seq<Seq<char>>) -> bool {
    forall|i: int, j: int| 0 <= i < j < s.len() ==> seq_lt(s[i], s[j])
}

/// Adds a name to an ascending set of names, keeping it ascending.
pub fn insert_sorted(v: &mut Vec<String>, x: &str)
    requires
        strictly_sorted(views(old(v)@)),
    ensures
        strictly_sorted(views(final(v)@)),
        forall|t: Seq<char>| views(final(v)@).contains(t) <==> (views(old(v)@).contains(t) || t == x@),
{
    let ghost v0 = views(v@);
    let mut pos: usize = 0;
    while pos < v.len() && str_lt(v[pos].as_str(), x)
        invariant
            pos <= v@.len(),
            views(v@) == v0,
            strictly_sorted(v0),
            forall|i: int| 0 <= i < pos ==> seq_lt(#[trigger] v0[i], x@),
        decreases v@.len() - pos,
    {
        pos = pos + 1;
    }
    if pos < v.len() && str_eq(v[pos].as_str(), x) {
        proof {
            assert(v0[pos as int] == x@);
            assert(v0.contains(x@));
        }
        return;
    }
    proof {
        assert forall|i: int| pos <= i < v0.len() implies seq_lt(x@, #[trigger] v0[i]) by {
            assert(v0[pos as int] == v@[pos as int]@);
            lemma_seq_lt_total(x@, v0[pos as int]);
            if i > pos {
                assert(seq_lt(v0[pos as int], v0[i]));
                lemma_seq_lt_trans(x@, v0[pos as int], v0[i]);
            }
        }
    }
    let s = copy_str(x);
    v.insert(pos, s);
    proof {
        let n = views(v@);
        assert(n =~= v0.insert(pos as int, x@));
        assert forall|i: int, j: int| 0 <= i < j < n.len() implies seq_lt(n[i], n[j]) by {
            if j < pos {
                assert(n[i] == v0[i] && n[j] == v0[j]);
            } else if j == pos {
                assert(n[i] == v0[i]);
            } else if i < pos {
                assert(n[i] == v0[i] && n[j] == v0[j - 1]);
                lemma_seq_lt_trans(v0[i], x@, v0[j - 1]);
            } else if i == pos {
                assert(n[j] == v0[j - 1]);
            } else {
                assert(n[i] == v0[i - 1] && n[j] == v0[j - 1]);
            }
        }
        assert forall|t: Seq<char>| n.contains(t) <==> (v0.contains(t) || t == x@) by {
            if n.contains(t) {
                let k = choose|k: int| 0 <= k < n.len() && n[k] == t;
                if k < pos {
                    assert(v0[k] == t);
                } else if k > pos {
                    assert(v0[k - 1] == t);
                }
            }
            if v0.contains(t) {
                let k = choose|k: int| 0 <= k < v0.len() && v0[k] == t;
                if k < pos {
                    assert(n[k] == t);
                } else {
                    assert(n[k + 1] == t);
                }
            }
            if t == x@ {
                assert(n[pos as int] == t);
            }
        }
    }
}

/// Lexicographic order on sequences of texts (each compared as a `str`).
pub open spec fn texts_lt(a: Seq<Seq<char>>, b: Seq<Seq<char>>) -> bool
    decreases a.len(),
{
    if b.len() == 0 {
        false
    } else if a.len() == 0 {
        true
    } else if seq_lt(a[0], b[0]) {
        true
    } else if a[0] == b[0] {
        texts_lt(a.drop_first(), b.drop_first())
    } else {
        false
    }
}

pub proof fn lemma_texts_lt_irrefl(a: Seq<Seq<char>>)
    ensures
        !texts_lt(a, a),
    decreases a.len(),
{
    if a.len() > 0 {
        lemma_seq_lt_irrefl(a[0]);
        lemma_texts_lt_irrefl(a.drop_first());
    }
}

pub proof fn lemma_texts_lt_trans(a: Seq<Seq<char>>, b: Seq<Seq<char>>, c: Seq<Seq<char>>)
    requires
        texts_lt(a, b),
        texts_lt(b, c),
    ensures
        texts_lt(a, c),
    decreases a.len(),
{
    if a.len() > 0 && b.len() > 0 && c.len() > 0 {
        if seq_lt(a[0], b[0]) && seq_lt(b[0], c[0]) {
            lemma_seq_lt_trans(a[0], b[0], c[0]);
        } else if a[0] == b[0] && b[0] == c[0] {
            lemma_texts_lt_trans(a.drop_first(), b.drop_first(), c.drop_first());
        }
    }
}

pub proof fn lemma_texts_lt_total(a: Seq<Seq<char>>, b: Seq<Seq<char>>)
    ensures
        texts_lt(a, b) || texts_lt(b, a) || a == b,
    decreases a.len(),
{
    if a.len() > 0 && b.len() > 0 {
        lemma_seq_lt_total(a[0], b[0]);
        if a[0] == b[0] {
            lemma_texts_lt_total(a.drop_first(), b.drop_first());
            if a.drop_first() == b.drop_first() {
                assert(a =~= seq![a[0]] + a.drop_first());
                assert(b =~= seq![b[0]] + b.drop_first());
            }
        }
    } else if a.len() == 0 && b.len() == 0 {
        assert(a =~= b);
    }
}

/// `a < b` for sequences of strings, lexicographically.
pub fn texts_lt_exec(a: &Vec<String>, b: &Vec<String>) -> (r: bool)
    ensures
        r == texts_lt(views(a@), views(b@)),
{
    let ghost va = views(a@);
    let ghost vb = views(b@);
    let mut i: usize = 0;
    assert(va.skip(0) =~= va);
    assert(vb.skip(0) =~= vb);
    while i < a.len() && i < b.len()
        invariant
            i <= a@.len(),
            i <= b@.len(),
            va == views(a@),
            vb == views(b@),
            texts_lt(va, vb) == texts_lt(va.skip(i as int), vb.skip(i as int)),
        decreases a@.len() - i,
    {
        assert(va[i as int] == a@[i as int]@);
        assert(vb[i as int] == b@[i as int]@);
        assert(va.skip(i as int)[0] == va[i as int]);
        assert(vb.skip(i as int)[0] == vb[i as int]);
        if str_lt(a[i].as_str(), b[i].as_str()) {
            return true;
        }
        if !str_eq(a[i].as_str(), b[i].as_str()) {
            return false;
        }
        proof {
            assert(va.skip(i as int).drop_first() =~= va.skip(i + 1));
            assert(vb.skip(i as int).drop_first() =~= vb.skip(i + 1));
        }
        i = i + 1;
    }
    i < b.len()
}

/// Each key comes strictly before the next.
pub open spec fn keys_sorted(ks: Seq<Vec<String>>) -> bool {
    forall|i: int, j: int| 0 <= i < j < ks.len() ==> texts_lt(views(ks[i]@), views(ks[j]@))
}

/// Inserts an item with its key into a list kept in strictly ascending key order;
/// the key is not among those there. Returns where it went.
pub fn insert_by_key<T>(items: &mut Vec<T>, keys: &mut Vec<Vec<String>>, item: T, key: Vec<String>) -> (pos: usize)
    requires
        old(items)@.len() == old(keys)@.len(),
        keys_sorted(old(keys)@),
        forall|i: int| 0 <= i < old(keys)@.len() ==> views(#[trigger] old(keys)@[i]@) != views(key@),
    ensures
        pos <= old(items)@.len(),
        final(items)@ == old(items)@.insert(pos as int, item),
        final(keys)@ == old(keys)@.insert(pos as int, key),
        keys_sorted(final(keys)@),
{
    let ghost k0 = keys@;
    let ghost kv = views(key@);
    let mut pos: usize = 0;
    while pos < keys.len() && texts_lt_exec(&keys[pos], &key)
        invariant
            pos <= keys@.len(),
            keys@ == k0,
            kv == views(key@),
            keys_sorted(k0),
            forall|i: int| 0 <= i < pos ==> texts_lt(views((#[trigger] k0[i])@), kv),
        decreases keys@.len() - pos,
    {
        pos = pos + 1;
    }
    proof {
        assert forall|i: int| pos <= i < k0.len() implies texts_lt(kv, views((#[trigger] k0[i])@)) by {
            assert(views(k0[pos as int]@) != kv);
            lemma_texts_lt_total(kv, views(k0[pos as int]@));
            if i > pos {
                assert(texts_lt(views(k0[pos as int]@), views(k0[i]@)));
                lemma_texts_lt_trans(kv, views(k0[pos as int]@), views(k0[i]@));
            }
        }
    }
    items.insert(pos, item);
    keys.insert(pos, key);
    proof {
        let n = keys@;
        assert(n =~= k0.insert(pos as int, key));
        assert forall|i: int, j: int| 0 <= i < j < n.len() implies texts_lt(views(n[i]@), views(n[j]@)) by {
            if j < pos {
                assert(n[i] == k0[i] && n[j] == k0[j]);
            } else if j == pos {
                assert(n[i] == k0[i]);
            } else if i < pos {
                assert(n[i] == k0[i] && n[j] == k0[j - 1]);
                lemma_texts_lt_trans(views(k0[i]@), kv, views(k0[j - 1]@));
            } else if i == pos {
                assert(n[j] == k0[j - 1]);
            } else {
                assert(n[i] == k0[i - 1] && n[j] == k0[j - 1]);
            }
        }
    }
    pos
}

} // verus!
