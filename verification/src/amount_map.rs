//! An ordered map from codes (account codes, cash-flow item codes, ...) to
//! decimal amounts, kept sorted by code so that iteration is deterministic.
use vstd::prelude::*;
use crate::decimal::{Dec, dec_add, dec_add_result, dec_checked_add, fits_at, pow10, lemma_pow10_pos};
use crate::text::{seq_lt, str_eq, str_lt, copy_str, lemma_seq_lt_total, lemma_seq_lt_trans, lemma_seq_lt_asym, lemma_seq_lt_irrefl};

verus! {

/// Entries of a map as plain values: (code, amount).
pub type Entries = Seq<(Seq<char>, Dec)>;

/// Codes strictly increasing.
pub open spec fn sorted_keys(m: Entries) -> bool {
    forall|i: int, j: int| 0 <= i < j < m.len() ==> seq_lt(#[trigger] m[i].0, #[trigger] m[j].0)
}

/// The amount recorded for a code.
pub open spec fn lookup(m: Entries, k: Seq<char>) -> Option<Dec>
    decreases m.len(),
{
    if m.len() == 0 {
        None
    } else if m.last().0 == k {
        Some(m.last().1)
    } else {
        lookup(m.drop_last(), k)
    }
}

/// Number of codes below `k`.
pub open spec fn count_below(m: Entries, k: Seq<char>) -> nat
    decreases m.len(),
{
    if m.len() == 0 {
        0
    } else {
        count_below(m.drop_last(), k) + if seq_lt(m.last().0, k) {
            1nat
        } else {
            0nat
        }
    }
}

/// Index of a code.
pub open spec fn index_of(m: Entries, k: Seq<char>) -> int
    decreases m.len(),
{
    if m.len() == 0 {
        -1
    } else if m.last().0 == k {
        m.len() - 1
    } else {
        index_of(m.drop_last(), k)
    }
}

/// Adds `v` into the amount of `k` the way `*entry(k).or_insert(0) += v` does.
pub open spec fn add_entry(m: Entries, k: Seq<char>, v: Dec) -> Entries {
    let i = index_of(m, k);
    if i >= 0 {
        m.update(i, (k, dec_add_result(m[i].1, v)->0))
    } else {
        m.insert(count_below(m, k) as int, (k, dec_add_result(Dec::zero_val(), v)->0))
    }
}

/// Whether that addition can be done (no overflow).
pub open spec fn add_entry_ok(m: Entries, k: Seq<char>, v: Dec) -> bool {
    let i = index_of(m, k);
    if i >= 0 {
        dec_add_result(m[i].1, v) is Some
    } else {
        dec_add_result(Dec::zero_val(), v) is Some
    }
}

pub proof fn lemma_index_of(m: Entries, k: Seq<char>)
    ensures
        -1 <= index_of(m, k) < m.len(),
        index_of(m, k) >= 0 ==> m[index_of(m, k)].0 == k,
        index_of(m, k) < 0 ==> forall|j: int| 0 <= j < m.len() ==> m[j].0 != k,
        index_of(m, k) >= 0 ==> lookup(m, k) == Some(m[index_of(m, k)].1),
        index_of(m, k) < 0 ==> lookup(m, k) is None,
    decreases m.len(),
{
    if m.len() > 0 {
        let p = m.drop_last();
        lemma_index_of(p, k);
        if index_of(m, k) < 0 {
            assert forall|j: int| 0 <= j < m.len() implies m[j].0 != k by {
                if j < m.len() - 1 {
                    assert(p[j] == m[j]);
                }
            }
        }
    }
}

pub proof fn lemma_count_below(m: Entries, k: Seq<char>)
    requires
        sorted_keys(m),
        forall|j: int| 0 <= j < m.len() ==> m[j].0 != k,
    ensures
        count_below(m, k) <= m.len(),
        forall|j: int| 0 <= j < count_below(m, k) ==> seq_lt(m[j].0, k),
        forall|j: int| count_below(m, k) <= j < m.len() ==> seq_lt(k, m[j].0),
    decreases m.len(),
{
    if m.len() > 0 {
        let p = m.drop_last();
        lemma_count_below(p, k);
        let l = m.last().0;
        lemma_seq_lt_total(l, k);
        assert(forall|j: int| 0 <= j < p.len() ==> p[j] == m[j]);
        assert(l != k);
        if seq_lt(l, k) {
            if count_below(p, k) < p.len() {
                let j = count_below(p, k) as int;
                assert(seq_lt(k, p[j].0));
                assert(seq_lt(m[j].0, m[m.len() - 1].0));
                lemma_seq_lt_trans(k, p[j].0, l);
                lemma_seq_lt_asym(k, l);
            }
            assert(count_below(p, k) == p.len());
            assert forall|j: int| 0 <= j < count_below(m, k) implies seq_lt(m[j].0, k) by {
                if j < p.len() {
                    assert(p[j] == m[j]);
                }
            }
        } else {
            assert(seq_lt(k, l));
            assert forall|j: int| 0 <= j < count_below(m, k) implies seq_lt(m[j].0, k) by {
                assert(p[j] == m[j]);
            }
            assert forall|j: int| count_below(m, k) <= j < m.len() implies seq_lt(k, m[j].0) by {
                if j < m.len() - 1 {
                    assert(p[j] == m[j]);
                }
            }
        }
    }
}

pub proof fn lemma_add_entry_sorted(m: Entries, k: Seq<char>, v: Dec)
    requires
        sorted_keys(m),
    ensures
        sorted_keys(add_entry(m, k, v)),
        lookup(add_entry(m, k, v), k) == Some(
            if index_of(m, k) >= 0 {
                dec_add_result(lookup(m, k)->0, v)->0
            } else {
                dec_add_result(Dec::zero_val(), v)->0
            },
        ),
        forall|k2: Seq<char>| k2 != k ==> lookup(add_entry(m, k, v), k2) == lookup(m, k2),
{
    lemma_index_of(m, k);
    let r = add_entry(m, k, v);
    if index_of(m, k) >= 0 {
        let i = index_of(m, k);
        assert forall|a: int, b: int| 0 <= a < b < r.len() implies seq_lt(
            #[trigger] r[a].0,
            #[trigger] r[b].0,
        ) by {
            assert(r[a].0 == m[a].0);
            assert(r[b].0 == m[b].0);
        }
        assert forall|k2: Seq<char>| true implies lookup(r, k2) == (if k2 == k {
            Some(r[i].1)
        } else {
            lookup(m, k2)
        }) by {
            lemma_lookup_same_keys(m, r, k2);
            lemma_index_of(r, k2);
            lemma_index_of(m, k2);
        }
    } else {
        lemma_count_below(m, k);
        let c = count_below(m, k) as int;
        assert forall|a: int, b: int| 0 <= a < b < r.len() implies seq_lt(
            #[trigger] r[a].0,
            #[trigger] r[b].0,
        ) by {
            if b < c {
                assert(r[a] == m[a] && r[b] == m[b]);
            } else if b == c {
                assert(r[a] == m[a]);
            } else if a < c {
                assert(r[a] == m[a] && r[b] == m[b - 1]);
                lemma_seq_lt_trans(m[a].0, k, m[b - 1].0);
            } else if a == c {
                assert(r[b] == m[b - 1]);
            } else {
                assert(r[a] == m[a - 1] && r[b] == m[b - 1]);
            }
        }
        assert forall|k2: Seq<char>| true implies lookup(r, k2) == (if k2 == k {
            Some(dec_add_result(Dec::zero_val(), v)->0)
        } else {
            lookup(m, k2)
        }) by {
            lemma_index_of(r, k2);
            lemma_index_of(m, k2);
            if k2 == k {
                lemma_lookup_unique(r, k, c);
            } else if index_of(m, k2) >= 0 {
                let j = index_of(m, k2);
                let jr = if j < c {
                    j
                } else {
                    j + 1
                };
                assert(r[jr] == m[j]);
                lemma_lookup_unique(r, k2, jr);
            } else {
                if index_of(r, k2) >= 0 {
                    let jr = index_of(r, k2);
                    if jr < c {
                        assert(r[jr] == m[jr]);
                    } else if jr > c {
                        assert(r[jr] == m[jr - 1]);
                    }
                }
            }
        }
    }
}

/// In a map with distinct codes, the entry holding a code is what lookup finds.
pub proof fn lemma_lookup_unique(m: Entries, k: Seq<char>, i: int)
    requires
        sorted_keys(m),
        0 <= i < m.len(),
        m[i].0 == k,
    ensures
        lookup(m, k) == Some(m[i].1),
        index_of(m, k) == i,
    decreases m.len(),
{
    if i < m.len() - 1 {
        assert(seq_lt(m[i].0, m[m.len() - 1].0));
        lemma_seq_lt_irrefl(k);
        let p = m.drop_last();
        assert forall|a: int, b: int| 0 <= a < b < p.len() implies seq_lt(
            #[trigger] p[a].0,
            #[trigger] p[b].0,
        ) by {
            assert(p[a] == m[a] && p[b] == m[b]);
        }
        assert(p[i] == m[i]);
        lemma_lookup_unique(p, k, i);
    }
}

/// Lookups in two maps with the same codes at the same places agree off the changed entry.
proof fn lemma_lookup_same_keys(m: Entries, r: Entries, k2: Seq<char>)
    requires
        m.len() == r.len(),
        forall|j: int| 0 <= j < m.len() ==> r[j].0 == m[j].0,
    ensures
        index_of(m, k2) == index_of(r, k2),
    decreases m.len(),
{
    if m.len() > 0 {
        lemma_lookup_same_keys(m.drop_last(), r.drop_last(), k2);
    }
}

pub open spec fn entries_view(v: Seq<(String, Dec)>) -> Entries {
    v.map_values(|e: (String, Dec)| (e.0@, e.1))
}

/// A map from codes to amounts, ordered by code.
#[derive(Debug)]
pub struct AmountMap {
    entries: Vec<(String, Dec)>,
}

impl View for AmountMap {
    type V = Entries;

    open spec fn view(&self) -> Entries {
        self.spec_entries()
    }
}

impl AmountMap {
    /// The entries as plain values.
    pub closed spec fn spec_entries(&self) -> Entries {
        entries_view(self.entries@)
    }

    #[verifier::type_invariant]
    closed spec fn inv(self) -> bool {
        sorted_keys(self.spec_entries())
    }

    /// An empty map.
    pub fn new() -> (r: AmountMap)
        ensures
            r.spec_entries() == Seq::<(Seq<char>, Dec)>::empty(),
    {
        let r = AmountMap { entries: Vec::new() };
        assert(r.spec_entries() =~= Seq::<(Seq<char>, Dec)>::empty());
        r
    }

    /// Number of codes.
    pub fn len(&self) -> (r: usize)
        ensures
            r == self.spec_entries().len(),
    {
        self.entries.len()
    }

    /// The `i`-th entry in code order.
    pub fn entry(&self, i: usize) -> (r: (&str, Dec))
        requires
            i < self.spec_entries().len(),
        ensures
            r.0@ == self.spec_entries()[i as int].0,
            r.1 == self.spec_entries()[i as int].1,
    {
        (self.entries[i].0.as_str(), self.entries[i].1)
    }

    /// Position of a code, if recorded.
    pub fn position(&self, key: &str) -> (r: Option<usize>)
        ensures
            r is Some <==> index_of(self.spec_entries(), key@) >= 0,
            r matches Some(i) ==> i == index_of(self.spec_entries(), key@),
    {
        proof {
            use_type_invariant(self);
            lemma_index_of(self.spec_entries(), key@);
        }
        let mut i: usize = 0;
        while i < self.entries.len()
            invariant
                i <= self.spec_entries().len(),
                sorted_keys(self.spec_entries()),
                forall|j: int| 0 <= j < i ==> self.spec_entries()[j].0 != key@,
            decreases self.spec_entries().len() - i,
        {
            let k = self.entries[i].0.as_str();
            if str_eq(k, key) {
                proof {
                    lemma_lookup_unique(self.spec_entries(), key@, i as int);
                }
                return Some(i);
            }
            i = i + 1;
        }
        None
    }

    /// The amount recorded for a code.
    pub fn get(&self, key: &str) -> (r: Option<Dec>)
        ensures
            r == lookup(self.spec_entries(), key@),
    {
        proof {
            lemma_index_of(self.spec_entries(), key@);
        }
        match self.position(key) {
            Some(i) => Some(self.entries[i].1),
            None => None,
        }
    }

    /// Whether a code is recorded.
    pub fn contains(&self, key: &str) -> (r: bool)
        ensures
            r == (lookup(self.spec_entries(), key@) is Some),
    {
        self.get(key).is_some()
    }

    /// Whether `add_to(key, amount)` can be done without overflow.
    pub fn can_add(&self, key: &str, amount: Dec) -> (r: bool)
        ensures
            r == add_entry_ok(self.spec_entries(), key@, amount),
    {
        proof {
            lemma_index_of(self.spec_entries(), key@);
        }
        let base = match self.get(key) {
            Some(v) => v,
            None => Dec::zero(),
        };
        proof {
            Dec::lemma_zero_one();
        }
        dec_checked_add(base, amount).is_some()
    }

    /// A copy of the map.
    pub fn copy(&self) -> (r: AmountMap)
        ensures
            r@ == self@,
    {
        proof {
            use_type_invariant(self);
        }
        let mut v: Vec<(String, Dec)> = Vec::new();
        let mut i: usize = 0;
        while i < self.entries.len()
            invariant
                i <= self.entries@.len(),
                v@.len() == i,
                entries_view(v@) == entries_view(self.entries@.subrange(0, i as int)),
            decreases self.entries@.len() - i,
        {
            let ghost before = v@;
            let k = self.entries[i].0.clone();
            v.push((k, self.entries[i].1));
            proof {
                let a = entries_view(v@);
                let b = entries_view(self.entries@.subrange(0, i + 1));
                assert(a.len() == b.len());
                assert forall|j: int| 0 <= j < a.len() implies a[j] == b[j] by {
                    if j < i {
                        assert(v@[j] == before[j]);
                        assert(entries_view(before)[j] == entries_view(self.entries@.subrange(0, i as int))[j]);
                    }
                }
                assert(a =~= b);
            }
            i = i + 1;
        }
        proof {
            assert(self.entries@.subrange(0, i as int) =~= self.entries@);
        }
        AmountMap { entries: v }
    }

    /// The entries as (code, amount) pairs in code order.
    pub fn to_pairs(&self) -> (r: Vec<(String, Dec)>)
        ensures
            entries_view(r@) == self@,
    {
        let c = self.copy();
        c.entries
    }

    /// `*entry(key).or_insert(0) += amount`.
    pub fn add_to(&mut self, key: &str, amount: Dec)
        requires
            add_entry_ok(old(self).spec_entries(), key@, amount),
        ensures
            final(self).spec_entries() == add_entry(old(self).spec_entries(), key@, amount),
    {
        proof {
            use_type_invariant(&*self);
            lemma_index_of(self.spec_entries(), key@);
            lemma_add_entry_sorted(self.spec_entries(), key@, amount);
        }
        match self.position(key) {
            Some(i) => {
                let cur = self.entries[i].1;
                let nv = dec_add(cur, amount);
                let k = self.entries[i].0.clone();
                let ghost before = self.spec_entries();
                let mut v: Vec<(String, Dec)> = Vec::new();
                assert(entries_view(v@) =~= Seq::<(Seq<char>, Dec)>::empty());
                std::mem::swap(&mut v, &mut self.entries);
                v.set(i, (k, nv));
                assert(entries_view(v@) =~= before.update(i as int, (key@, nv)));
                self.entries = v;
            },
            None => {
                let z = Dec::zero();
                let nv = dec_add(z, amount);
                let ghost before = self.spec_entries();
                let mut pos: usize = 0;
                proof {
                    lemma_count_below(before, key@);
                }
                while pos < self.entries.len() && str_lt(self.entries[pos].0.as_str(), key)
                    invariant
                        pos <= count_below(before, key@),
                        self.spec_entries() == before,
                        count_below(before, key@) <= before.len(),
                        forall|j: int| 0 <= j < count_below(before, key@) ==> seq_lt(before[j].0, key@),
                        forall|j: int| count_below(before, key@) <= j < before.len() ==> seq_lt(key@, before[j].0),
                    decreases before.len() - pos,
                {
                    proof {
                        assert(before[pos as int].0 == self.entries@[pos as int].0@);
                        if pos >= count_below(before, key@) {
                            lemma_seq_lt_asym(key@, before[pos as int].0);
                        }
                    }
                    pos = pos + 1;
                }
                proof {
                    if pos < count_below(before, key@) {
                        assert(seq_lt(before[pos as int].0, key@));
                    }
                    if pos < before.len() && pos > count_below(before, key@) {
                        assert(false);
                    }
                    if pos == before.len() && pos < count_below(before, key@) {
                        assert(false);
                    }
                }
                let ks = copy_str(key);
                let mut v: Vec<(String, Dec)> = Vec::new();
                assert(entries_view(v@) =~= Seq::<(Seq<char>, Dec)>::empty());
                std::mem::swap(&mut v, &mut self.entries);
                v.insert(pos, (ks, nv));
                assert(entries_view(v@) =~= before.insert(pos as int, (key@, nv)));
                self.entries = v;
            },
        }
    }

    /// Sets the amount of a code (inserting it in order when new).
    pub fn insert(&mut self, key: &str, amount: Dec)
        ensures
            sorted_keys(final(self).spec_entries()),
            lookup(final(self).spec_entries(), key@) == Some(amount),
            forall|k2: Seq<char>| k2 != key@ ==> lookup(final(self).spec_entries(), k2) == lookup(
                old(self).spec_entries(),
                k2,
            ),
    {
        proof {
            use_type_invariant(&*self);
            lemma_index_of(self.spec_entries(), key@);
        }
        let ghost before = self.spec_entries();
        match self.position(key) {
            Some(i) => {
                let k = self.entries[i].0.clone();
                let mut v: Vec<(String, Dec)> = Vec::new();
                assert(entries_view(v@) =~= Seq::<(Seq<char>, Dec)>::empty());
                std::mem::swap(&mut v, &mut self.entries);
                v.set(i, (k, amount));
                assert(entries_view(v@) =~= before.update(i as int, (key@, amount)));
                proof {
                    let r = entries_view(v@);
                    assert forall|a: int, b: int| 0 <= a < b < r.len() implies seq_lt(
                        #[trigger] r[a].0,
                        #[trigger] r[b].0,
                    ) by {
                        assert(r[a].0 == before[a].0 && r[b].0 == before[b].0);
                    }
                    lemma_lookup_unique(r, key@, i as int);
                    assert forall|k2: Seq<char>| k2 != key@ implies lookup(r, k2) == lookup(
                        before,
                        k2,
                    ) by {
                        lemma_lookup_same_keys(before, r, k2);
                        lemma_index_of(r, k2);
                        lemma_index_of(before, k2);
                    }
                }
                self.entries = v;
            },
            None => {
                let z = Dec::zero();
                self.add_zero_entry(key);
                let p = self.position(key);
                proof {
                    lemma_index_of(self.spec_entries(), key@);
                }
                let i = p.unwrap();
                let k = self.entries[i].0.clone();
                let ghost mid = self.spec_entries();
                let mut v: Vec<(String, Dec)> = Vec::new();
                assert(entries_view(v@) =~= Seq::<(Seq<char>, Dec)>::empty());
                std::mem::swap(&mut v, &mut self.entries);
                v.set(i, (k, amount));
                assert(entries_view(v@) =~= mid.update(i as int, (key@, amount)));
                proof {
                    let r = entries_view(v@);
                    assert forall|a: int, b: int| 0 <= a < b < r.len() implies seq_lt(
                        #[trigger] r[a].0,
                        #[trigger] r[b].0,
                    ) by {
                        assert(r[a].0 == mid[a].0 && r[b].0 == mid[b].0);
                    }
                    lemma_lookup_unique(r, key@, i as int);
                    assert forall|k2: Seq<char>| k2 != key@ implies lookup(r, k2) == lookup(
                        before,
                        k2,
                    ) by {
                        lemma_lookup_same_keys(mid, r, k2);
                        lemma_index_of(r, k2);
                        lemma_index_of(mid, k2);
                    }
                }
                self.entries = v;
            },
        }
    }

    /// Every map has its codes in strictly increasing order (a no-op that records it).
    pub fn note_sorted(&self)
        ensures
            sorted_keys(self.spec_entries()),
    {
        proof {
            use_type_invariant(self);
        }
    }

    /// Records a code with amount zero when absent (`entry(key).or_insert(0)`).
    pub fn touch(&mut self, key: &str)
        ensures
            sorted_keys(final(self).spec_entries()),
            lookup(final(self).spec_entries(), key@) is Some,
            forall|k2: Seq<char>| k2 != key@ ==> lookup(final(self).spec_entries(), k2) == lookup(
                old(self).spec_entries(),
                k2,
            ),
    {
        self.add_zero_entry(key);
    }

    /// The map with every code of `from` recorded too (amount zero when new).
    pub fn with_keys_of(self, from: &AmountMap) -> (r: AmountMap)
        ensures
            forall|k: Seq<char>|
                #![trigger lookup(r.spec_entries(), k)]
                (lookup(r.spec_entries(), k) is Some) <==> (lookup(self.spec_entries(), k) is Some
                    || lookup(from.spec_entries(), k) is Some),
    {
        let mut m = self;
        let ghost init = m.spec_entries();
        let ghost src = from.spec_entries();
        let mut i: usize = 0;
        while i < from.len()
            invariant
                i <= src.len(),
                src == from.spec_entries(),
                forall|k: Seq<char>|
                    #![trigger lookup(m.spec_entries(), k)]
                    (lookup(m.spec_entries(), k) is Some) <==> (lookup(init, k) is Some || exists|ii: int|
                        0 <= ii < i && (#[trigger] src[ii]).0 == k),
            decreases src.len() - i,
        {
            let (k, _v) = from.entry(i);
            let ghost before = m.spec_entries();
            m.touch(k);
            proof {
                assert(lookup(m.spec_entries(), k@) is Some);
                assert(forall|k2: Seq<char>| k2 != k@ ==> lookup(m.spec_entries(), k2) == lookup(before, k2));
                assert forall|k2: Seq<char>|
                    (lookup(m.spec_entries(), k2) is Some) <==> (lookup(init, k2) is Some || exists|ii: int|
                        0 <= ii < i + 1 && (#[trigger] src[ii]).0 == k2) by {
                    if k2 == k@ {
                        assert(src[i as int].0 == k2);
                    }
                    assert(lookup(before, k2) == lookup(before, k2));
                }
            }
            i = i + 1;
        }
        proof {
            assert forall|k: Seq<char>|
                (lookup(m.spec_entries(), k) is Some) <==> (lookup(init, k) is Some || lookup(src, k) is Some) by {
                lemma_index_of(src, k);
                if lookup(src, k) is Some {
                    let ii = index_of(src, k);
                    assert(src[ii].0 == k);
                }
            }
        }
        m
    }

    /// Records a code with amount zero when absent.
    fn add_zero_entry(&mut self, key: &str)
        ensures
            sorted_keys(final(self).spec_entries()),
            lookup(final(self).spec_entries(), key@) is Some,
            forall|k2: Seq<char>| k2 != key@ ==> lookup(final(self).spec_entries(), k2) == lookup(
                old(self).spec_entries(),
                k2,
            ),
    {
        proof {
            use_type_invariant(&*self);
            lemma_index_of(self.spec_entries(), key@);
            Dec::lemma_zero_one();
        }
        let z = Dec::zero();
        let ok = dec_checked_add(z, z);
        proof {
            assert(fits_at(0, 0)) by {
                lemma_pow10_pos(28);
                vstd::arithmetic::div_mod::lemma_small_mod(0, pow10(28) as nat);
            }
        }
        if self.position(key).is_none() {
            self.add_to(key, z);
        }
        proof {
            use_type_invariant(&*self);
            lemma_add_entry_sorted(old(self).spec_entries(), key@, z);
        }
    }
}

} // verus!
