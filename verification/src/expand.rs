//! Float rows and columns: a design-time template row (or column) times the records
//! of a data source gives the run-time instance rows (or columns), with placeholders
//! in titles and formulas replaced per record and stable derived ids.
use vstd::prelude::*;
use vstd::utf8::encode_utf8;
use crate::text::{chars_of, copy_str, push_char, append_str, int_string, int_text, str_eq};
use crate::grid::{col_to_letters, col_text, is_alpha, alpha_run, lemma_alpha_run, tail_string};
use crate::text::{parse_i64, i64_of_text};

verus! {

/// Base of the derived id band (2^52).
pub const INSTANCE_ID_BASE: i64 = 4503599627370496;

/// Mask that folds a hash into [0, 2^52).
pub const INSTANCE_ID_MASK: u64 = 4503599627370495;

/// FNV-1a over bytes (offset basis 0xcbf29ce484222325, prime 0x100000001b3).
pub open spec fn fnv_fold(bs: Seq<u8>) -> u64
    decreases bs.len(),
{
    if bs.len() == 0 {
        0xcbf29ce484222325u64
    } else {
        vstd::wrapping::u64_specs::wrapping_mul(fnv_fold(bs.drop_last()) ^ (bs.last() as u64), 0x100000001b3u64)
    }
}

/// 64-bit FNV-1a of the UTF-8 bytes of a string (fixed seed: the same in every process).
pub fn fnv1a64(s: &str) -> (r: u64)
    ensures
        r == fnv_fold(encode_utf8(s@)),
{
    let b = s.as_bytes();
    let mut h: u64 = 0xcbf29ce484222325;
    let mut i: usize = 0;
    while i < b.len()
        invariant
            b@ == encode_utf8(s@),
            i <= b@.len(),
            h == fnv_fold(b@.subrange(0, i as int)),
        decreases b@.len() - i,
    {
        proof {
            let p = b@.subrange(0, i + 1);
            assert(p.drop_last() =~= b@.subrange(0, i as int));
            assert(p.last() == b@[i as int]);
        }
        h = (h ^ (b[i] as u64)).wrapping_mul(0x100000001b3);
        i = i + 1;
    }
    proof {
        assert(b@.subrange(0, b@.len() as int) =~= b@);
    }
    h
}

/// The text an instance id is derived from: `"{template id}|{dim key path}"`.
pub open spec fn id_seed(template_row_id: i64, dim_key_path: Seq<char>) -> Seq<char> {
    int_text(template_row_id as int) + seq!['|'] + dim_key_path
}

/// The derived id of an instance row: 2^52 plus the low 52 bits of the hash of its seed.
pub open spec fn instance_id(template_row_id: i64, dim_key_path: Seq<char>) -> i64 {
    (INSTANCE_ID_BASE + (fnv_fold(encode_utf8(id_seed(template_row_id, dim_key_path))) & INSTANCE_ID_MASK)) as i64
}

/// The stable id of an instance row, derived from its template row id and dimension
/// key path: a function of those two values alone, in [2^52, 2^53 − 1] (out of the
/// band of real ids, and safe as a JavaScript number).
pub fn stable_instance_row_id(template_row_id: i64, dim_key_path: &str) -> (r: i64)
    ensures
        r == instance_id(template_row_id, dim_key_path@),
        INSTANCE_ID_BASE <= r <= INSTANCE_ID_BASE + INSTANCE_ID_MASK,
        r <= 9007199254740991,
{
    let mut seed = int_string(template_row_id);
    push_char(&mut seed, '|');
    append_str(&mut seed, dim_key_path);
    proof {
        assert(seed@ =~= id_seed(template_row_id, dim_key_path@));
    }
    let f = fnv1a64(seed.as_str());
    let h = f & INSTANCE_ID_MASK;
    assert(h <= 4503599627370495u64) by (bit_vector)
        requires
            h == f & 4503599627370495u64,
    ;
    INSTANCE_ID_BASE + h as i64
}

/// Whether an id lies in the derived-id band.
pub fn is_instance_row_id(id: i64) -> (r: bool)
    ensures
        r == (INSTANCE_ID_BASE <= id <= INSTANCE_ID_BASE + INSTANCE_ID_MASK),
{
    INSTANCE_ID_BASE <= id && id <= INSTANCE_ID_BASE + INSTANCE_ID_MASK as i64
}

// ----------------------------------------------------------------------------
// Placeholder substitution
// ----------------------------------------------------------------------------
/// The context as plain values: (dimensions, label, own row, total row, parent row,
/// column letter).
pub type CtxView = (Seq<(Seq<char>, Seq<char>)>, Seq<char>, Option<i64>, Option<i64>, Option<i64>, Option<Seq<char>>);

/// Key/value pairs as plain values.
pub open spec fn pairs_view(v: Seq<(String, String)>) -> Seq<(Seq<char>, Seq<char>)> {
    v.map_values(|p: (String, String)| (p.0@, p.1@))
}

/// What placeholders are replaced with: the record's dimensions and label, the
/// semantic anchor rows, and for float columns the current column letter.
pub struct SubstCtx<'a> {
    pub dims: &'a [(String, String)],
    pub label: &'a str,
    pub phys_row: Option<i64>,
    pub total_row: Option<i64>,
    pub parent_row: Option<i64>,
    /// Float columns: the letter of the current instance column.
    pub col_letter: Option<String>,
}

impl<'a> View for SubstCtx<'a> {
    type V = CtxView;

    open spec fn view(&self) -> CtxView {
        (
            pairs_view(self.dims@),
            self.label@,
            self.phys_row,
            self.total_row,
            self.parent_row,
            match self.col_letter {
                Some(c) => Some(c@),
                None => None,
            },
        )
    }
}

/// The value of the first dimension named `key`.
pub open spec fn find_dim(dims: Seq<(Seq<char>, Seq<char>)>, key: Seq<char>) -> Option<Seq<char>>
    decreases dims.len(),
{
    if dims.len() == 0 {
        None
    } else if dims[0].0 == key {
        Some(dims[0].1)
    } else {
        find_dim(dims.subrange(1, dims.len() as int), key)
    }
}

/// A row number's text, empty when there is none.
pub open spec fn opt_row_text(o: Option<i64>) -> Seq<char> {
    match o {
        Some(n) => int_text(n as int),
        None => Seq::empty(),
    }
}

/// What a placeholder key stands for: `r`, `total`, `parent` the anchor rows, `c`
/// the column letter, `label` the label, anything else the dimension of that name
/// (empty when absent).
pub open spec fn resolve_spec(c: CtxView, key: Seq<char>) -> Seq<char> {
    if key == "r"@ {
        opt_row_text(c.2)
    } else if key == "total"@ {
        opt_row_text(c.3)
    } else if key == "parent"@ {
        opt_row_text(c.4)
    } else if key == "c"@ {
        match c.5 {
            Some(l) => l,
            None => Seq::empty(),
        }
    } else if key == "label"@ {
        c.1
    } else {
        match find_dim(c.0, key) {
            Some(v) => v,
            None => Seq::empty(),
        }
    }
}

/// Unicode white space (`char::is_whitespace`).
pub open spec fn is_ws(c: char) -> bool {
    ('\t' <= c && c <= '\r') || c == ' ' || c == '\u{85}' || c == '\u{a0}' || c == '\u{1680}' || ('\u{2000}' <= c
        && c <= '\u{200a}') || c == '\u{2028}' || c == '\u{2029}' || c == '\u{202f}' || c == '\u{205f}' || c
        == '\u{3000}'
}

/// Leading white space removed.
pub open spec fn trim_start(s: Seq<char>) -> Seq<char>
    decreases s.len(),
{
    if s.len() > 0 && is_ws(s[0]) {
        trim_start(s.subrange(1, s.len() as int))
    } else {
        s
    }
}

/// Trailing white space removed.
pub open spec fn trim_end(s: Seq<char>) -> Seq<char>
    decreases s.len(),
{
    if s.len() > 0 && is_ws(s.last()) {
        trim_end(s.drop_last())
    } else {
        s
    }
}

/// White space removed at both ends (`str::trim`).
pub open spec fn trim_spec(s: Seq<char>) -> Seq<char> {
    trim_end(trim_start(s))
}

fn is_ws_char(c: char) -> (r: bool)
    ensures
        r == is_ws(c),
{
    ('\t' <= c && c <= '\r') || c == ' ' || c == '\u{85}' || c == '\u{a0}' || c == '\u{1680}' || ('\u{2000}' <= c
        && c <= '\u{200a}') || c == '\u{2028}' || c == '\u{2029}' || c == '\u{202f}' || c == '\u{205f}' || c
        == '\u{3000}'
}

/// `str::trim` on the characters `cs[from..to]`.
fn trim_range(cs: &Vec<char>, from: usize, to: usize) -> (r: String)
    requires
        from <= to <= cs@.len(),
    ensures
        r@ == trim_spec(cs@.subrange(from as int, to as int)),
{
    let mut a = from;
    while a < to && is_ws_char(cs[a])
        invariant
            from <= a <= to <= cs@.len(),
            trim_start(cs@.subrange(from as int, to as int)) == trim_start(cs@.subrange(a as int, to as int)),
        decreases to - a,
    {
        proof {
            let s = cs@.subrange(a as int, to as int);
            assert(s[0] == cs@[a as int]);
            assert(s.subrange(1, s.len() as int) =~= cs@.subrange(a + 1, to as int));
        }
        a = a + 1;
    }
    proof {
        let s = cs@.subrange(a as int, to as int);
        if a < to {
            assert(s[0] == cs@[a as int]);
        }
        assert(trim_start(s) == s);
    }
    let mut b = to;
    while b > a && is_ws_char(cs[b - 1])
        invariant
            from <= a <= b <= to <= cs@.len(),
            trim_end(cs@.subrange(a as int, to as int)) == trim_end(cs@.subrange(a as int, b as int)),
        decreases b - a,
    {
        proof {
            let s = cs@.subrange(a as int, b as int);
            assert(s.last() == cs@[b - 1]);
            assert(s.drop_last() =~= cs@.subrange(a as int, b - 1));
        }
        b = b - 1;
    }
    proof {
        let s = cs@.subrange(a as int, b as int);
        if b > a {
            assert(s.last() == cs@[b - 1]);
        }
        assert(trim_end(s) == s);
    }
    let mut out = String::new();
    let mut j: usize = a;
    while j < b
        invariant
            a <= j <= b <= cs@.len(),
            out@ == cs@.subrange(a as int, j as int),
        decreases b - j,
    {
        push_char(&mut out, cs[j]);
        j = j + 1;
        assert(out@ =~= cs@.subrange(a as int, j as int));
    }
    out
}

/// `str::trim` on characters.
pub fn trim_chars(cs: &Vec<char>) -> (r: String)
    ensures
        r@ == trim_spec(cs@),
{
    proof {
        assert(cs@.subrange(0, cs@.len() as int) =~= cs@);
    }
    trim_range(cs, 0, cs.len())
}

/// The index of the first two consecutive `c` characters.
pub open spec fn find2(t: Seq<char>, c: char) -> Option<int>
    decreases t.len(),
{
    if t.len() < 2 {
        None
    } else if t[0] == c && t[1] == c {
        Some(0)
    } else {
        match find2(t.subrange(1, t.len() as int), c) {
            Some(i) => Some(i + 1),
            None => None,
        }
    }
}

proof fn lemma_find2(t: Seq<char>, c: char, i: int)
    requires
        0 <= i,
        i + 1 < t.len(),
        t[i] == c && t[i + 1] == c,
        forall|j: int| 0 <= j < i ==> !(t[j] == c && #[trigger] t[j + 1] == c),
    ensures
        find2(t, c) == Some(i),
    decreases i,
{
    if i > 0 {
        let u = t.subrange(1, t.len() as int);
        assert forall|j: int| 0 <= j < i - 1 implies !(u[j] == c && #[trigger] u[j + 1] == c) by {
            assert(u[j] == t[j + 1] && u[j + 1] == t[j + 2]);
            assert(!(t[j + 1] == c && t[(j + 1) + 1] == c));
        }
        lemma_find2(u, c, i - 1);
        assert(!(t[0] == c && t[0int + 1] == c));
    }
}

proof fn lemma_find2_none(t: Seq<char>, c: char)
    requires
        forall|j: int| 0 <= j && j + 1 < t.len() ==> !(t[j] == c && #[trigger] t[j + 1] == c),
    ensures
        find2(t, c) is None,
    decreases t.len(),
{
    if t.len() >= 2 {
        let u = t.subrange(1, t.len() as int);
        assert forall|j: int| 0 <= j && j + 1 < u.len() implies !(u[j] == c && #[trigger] u[j + 1] == c) by {
            assert(u[j] == t[j + 1] && u[j + 1] == t[j + 2]);
            assert(!(t[j + 1] == c && t[(j + 1) + 1] == c));
        }
        lemma_find2_none(u, c);
        assert(!(t[0] == c && t[0int + 1] == c));
    }
}

/// The first `cc` at or after `from`, relative to `from`.
fn find_pair(cs: &Vec<char>, from: usize, c: char) -> (r: Option<usize>)
    requires
        from <= cs@.len(),
    ensures
        r is Some <==> find2(cs@.subrange(from as int, cs@.len() as int), c) is Some,
        r matches Some(p) ==> p == find2(cs@.subrange(from as int, cs@.len() as int), c)->0 && from + p + 2
            <= cs@.len(),
{
    let ghost t = cs@.subrange(from as int, cs@.len() as int);
    let mut i: usize = from;
    while i < cs.len() && i + 1 < cs.len()
        invariant
            t == cs@.subrange(from as int, cs@.len() as int),
            from <= i <= cs@.len(),
            forall|j: int| 0 <= j < i - from ==> !(t[j] == c && #[trigger] t[j + 1] == c),
        decreases cs@.len() - i,
    {
        if cs[i] == c && cs[i + 1] == c {
            proof {
                assert(t[i - from] == cs@[i as int]);
                assert(t[i - from + 1] == cs@[i + 1]);
                lemma_find2(t, c, i - from);
            }
            return Some(i - from);
        }
        proof {
            assert(t[i - from] == cs@[i as int]);
            assert(t[i - from + 1] == cs@[i + 1]);
        }
        i = i + 1;
    }
    proof {
        lemma_find2_none(t, c);
    }
    None
}

/// The template with every `{{key}}` replaced by what the (trimmed) key stands for;
/// an unclosed `{{` is kept as it is.
pub open spec fn subst_spec(t: Seq<char>, c: CtxView) -> Seq<char>
    decreases t.len(),
{
    match find2(t, '{') {
        None => t,
        Some(p) => if 0 <= p && p + 2 <= t.len() {
            let after = t.subrange(p + 2, t.len() as int);
            match find2(after, '}') {
                Some(e) => if 0 <= e && e + 2 <= after.len() {
                    t.subrange(0, p) + resolve_spec(c, trim_spec(after.subrange(0, e))) + subst_spec(
                        after.subrange(e + 2, after.len() as int),
                        c,
                    )
                } else {
                    t
                },
                None => t.subrange(0, p) + seq!['{', '{'] + subst_spec(after, c),
            }
        } else {
            t
        },
    }
}

impl<'a> SubstCtx<'a> {
    /// What a placeholder key stands for.
    fn resolve(&self, key: &str) -> (r: String)
        ensures
            r@ == resolve_spec(self@, key@),
    {
        if str_eq(key, "r") {
            row_text(self.phys_row)
        } else if str_eq(key, "total") {
            row_text(self.total_row)
        } else if str_eq(key, "parent") {
            row_text(self.parent_row)
        } else if str_eq(key, "c") {
            match &self.col_letter {
                Some(l) => l.clone(),
                None => String::new(),
            }
        } else if str_eq(key, "label") {
            copy_str(self.label)
        } else {
            let mut i: usize = 0;
            let ghost ds = pairs_view(self.dims@);
            proof {
                assert(ds.subrange(0, ds.len() as int) =~= ds);
            }
            while i < self.dims.len()
                invariant
                    ds == pairs_view(self.dims@),
                    key@ != "r"@ && key@ != "total"@ && key@ != "parent"@ && key@ != "c"@ && key@ != "label"@,
                    i <= ds.len(),
                    find_dim(ds, key@) == find_dim(ds.subrange(i as int, ds.len() as int), key@),
                decreases ds.len() - i,
            {
                let ghost rest = ds.subrange(i as int, ds.len() as int);
                proof {
                    assert(rest[0] == ds[i as int]);
                    assert(rest.subrange(1, rest.len() as int) =~= ds.subrange(i + 1, ds.len() as int));
                }
                proof {
                    assert(ds[i as int] == (self.dims@[i as int].0@, self.dims@[i as int].1@));
                }
                if str_eq(self.dims[i].0.as_str(), key) {
                    let v = self.dims[i].1.clone();
                    proof {
                        assert(rest.len() > 0);
                        assert(rest[0].0 == key@);
                        assert(find_dim(rest, key@) == Some(rest[0].1));
                        assert(v@ == rest[0].1);
                    }
                    return v;
                }
                i = i + 1;
            }
            proof {
                assert(ds.subrange(i as int, ds.len() as int) =~= Seq::<(Seq<char>, Seq<char>)>::empty());
            }
            String::new()
        }
    }
}

fn row_text(o: Option<i64>) -> (r: String)
    ensures
        r@ == opt_row_text(o),
{
    match o {
        Some(n) => int_string(n),
        None => String::new(),
    }
}

/// Replaces the `{{token}}` placeholders of a template: `{{r}}`/`{{total}}`/
/// `{{parent}}` by the anchor rows, `{{label}}` by the label, `{{c}}` by the column
/// letter, any other `{{name}}` by that dimension's value (empty when unknown); an
/// unclosed `{{` stays as it is.
pub fn substitute(tpl: &str, ctx: &SubstCtx) -> (r: String)
    ensures
        r@ == subst_spec(tpl@, ctx@),
{
    let cs = chars_of(tpl);
    let n = cs.len();
    let mut out = String::new();
    let mut i: usize = 0;
    proof {
        assert(cs@.subrange(0, n as int) =~= tpl@);
        assert(out@ + subst_spec(tpl@, ctx@) =~= subst_spec(tpl@, ctx@));
    }
    while i < n
        invariant
            cs@ == tpl@,
            n == cs@.len(),
            i <= n,
            out@ + subst_spec(cs@.subrange(i as int, n as int), ctx@) == subst_spec(tpl@, ctx@),
        decreases n - i,
    {
        let ghost t = cs@.subrange(i as int, n as int);
        match find_pair(&cs, i, '{') {
            None => {
                let mut j: usize = i;
                let ghost o0 = out@;
                while j < n
                    invariant
                        i <= j <= n,
                        n == cs@.len(),
                        out@ == o0 + cs@.subrange(i as int, j as int),
                    decreases n - j,
                {
                    push_char(&mut out, cs[j]);
                    j = j + 1;
                    assert(out@ =~= o0 + cs@.subrange(i as int, j as int));
                }
                proof {
                    assert(subst_spec(t, ctx@) == t);
                    assert(cs@.subrange(n as int, n as int) =~= Seq::<char>::empty());
                    assert(subst_spec(Seq::<char>::empty(), ctx@) =~= Seq::<char>::empty());
                }
                i = n;
            },
            Some(p) => {
                let ghost o0 = out@;
                let mut j: usize = i;
                while j < i + p
                    invariant
                        i <= j <= i + p,
                        i + p + 2 <= n,
                        n == cs@.len(),
                        out@ == o0 + cs@.subrange(i as int, j as int),
                    decreases i + p - j,
                {
                    push_char(&mut out, cs[j]);
                    j = j + 1;
                    assert(out@ =~= o0 + cs@.subrange(i as int, j as int));
                }
                let a = i + p + 2;
                let ghost after = cs@.subrange(a as int, n as int);
                proof {
                    assert(t.subrange(p + 2, t.len() as int) =~= after);
                    assert(t.subrange(0, p as int) =~= cs@.subrange(i as int, i + p));
                }
                match find_pair(&cs, a, '}') {
                    Some(e) => {
                        let key = trim_range(&cs, a, a + e);
                        let v = ctx.resolve(key.as_str());
                        append_str(&mut out, v.as_str());
                        proof {
                            assert(after.subrange(0, e as int) =~= cs@.subrange(a as int, a + e));
                            assert(after.subrange(e + 2, after.len() as int) =~= cs@.subrange(a + e + 2, n as int));
                            assert(out@ + subst_spec(cs@.subrange(a + e + 2, n as int), ctx@) =~= o0 + subst_spec(t, ctx@));
                        }
                        i = a + e + 2;
                    },
                    None => {
                        push_char(&mut out, '{');
                        push_char(&mut out, '{');
                        proof {
                            assert(out@ + subst_spec(cs@.subrange(a as int, n as int), ctx@) =~= o0 + subst_spec(t, ctx@));
                        }
                        i = a;
                    },
                }
            },
        }
    }
    proof {
        assert(cs@.subrange(n as int, n as int) =~= Seq::<char>::empty());
        assert(subst_spec(Seq::<char>::empty(), ctx@) =~= Seq::<char>::empty());
        assert(out@ + Seq::<char>::empty() =~= out@);
    }
    out
}

/// The dimension key path `k=v;k=v` (in order).
pub open spec fn dim_path(dims: Seq<(Seq<char>, Seq<char>)>) -> Seq<char>
    decreases dims.len(),
{
    if dims.len() == 0 {
        Seq::empty()
    } else if dims.len() == 1 {
        dims[0].0 + seq!['='] + dims[0].1
    } else {
        dim_path(dims.drop_last()) + seq![';'] + dims.last().0 + seq!['='] + dims.last().1
    }
}

/// The dimension key path of a record (`k=v` joined by `;`).
pub fn dim_key_path(dims: &[(String, String)]) -> (r: String)
    ensures
        r@ == dim_path(pairs_view(dims@)),
{
    let ghost ds = pairs_view(dims@);
    let mut out = String::new();
    let mut i: usize = 0;
    while i < dims.len()
        invariant
            ds == pairs_view(dims@),
            i <= ds.len(),
            out@ == dim_path(ds.subrange(0, i as int)),
        decreases ds.len() - i,
    {
        let ghost o0 = out@;
        if i > 0 {
            push_char(&mut out, ';');
        }
        append_str(&mut out, dims[i].0.as_str());
        push_char(&mut out, '=');
        append_str(&mut out, dims[i].1.as_str());
        proof {
            let p = ds.subrange(0, i + 1);
            assert(p.drop_last() =~= ds.subrange(0, i as int));
            assert(p.last() == ds[i as int]);
            if i == 0 {
                assert(p.len() == 1);
                assert(p[0] == ds[0]);
                assert(o0 =~= Seq::<char>::empty());
            }
            assert(out@ =~= dim_path(p));
        }
        i = i + 1;
    }
    proof {
        assert(ds.subrange(0, ds.len() as int) =~= ds);
    }
    out
}

// ----------------------------------------------------------------------------
// Row floats
// ----------------------------------------------------------------------------
/// One record of a float data source.
#[derive(Debug, Clone, Default)]
pub struct SourceRecord {
    /// Display name (for `{{label}}`).
    pub label: String,
    /// Ordered dimension key/value pairs (for `{{dim}}`; ordered so the key path and
    /// the derived id are determined).
    pub dims: Vec<(String, String)>,
    /// Stored explicit cell values `(column, value)`; a non-empty one overrides the
    /// template formula of its column.
    pub cells: Vec<(String, String)>,
}

/// A float template row (design time).
#[derive(Debug, Clone)]
pub struct FloatTemplate {
    /// The template row's real id (seed of the derived ids).
    pub template_row_id: i64,
    /// Title template, e.g. `{{label}}`.
    pub name_tpl: String,
    /// Formula template per column: `(column, template)`.
    pub cell_tpls: Vec<(String, String)>,
}

/// An instance row as plain values: (row id, dimension key path, name, cells,
/// sort number, physical row, row type, level, parent row).
pub type RowView = (i64, Seq<char>, Seq<char>, Seq<(Seq<char>, Seq<char>)>, i32, i64, Seq<char>, i32, Option<i64>);

/// An expanded instance row (flat and hierarchical floats alike).
#[derive(Debug, Clone, PartialEq)]
pub struct InstanceRow {
    pub row_id: i64,
    /// `k=v;k=v`.
    pub dim_key_path: String,
    pub name: String,
    /// `(column, formula with placeholders replaced)`.
    pub cells: Vec<(String, String)>,
    /// Expansion order (1-based; 0 for a grand total).
    pub sort_no: i32,
    /// Physical row on the canvas (1-based).
    pub phys_row: i64,
    /// `float` detail / `subtotal` / `total`.
    pub row_type: String,
    pub level_no: i32,
    pub parent_row: Option<i64>,
}

impl View for InstanceRow {
    type V = RowView;

    open spec fn view(&self) -> RowView {
        (
            self.row_id,
            self.dim_key_path@,
            self.name@,
            pairs_view(self.cells@),
            self.sort_no,
            self.phys_row,
            self.row_type@,
            self.level_no,
            self.parent_row,
        )
    }
}

/// One templated cell: a non-empty stored value of the column overrides the
/// template; otherwise the template with placeholders replaced.
pub open spec fn tpl_cell(col: Seq<char>, tpl: Seq<char>, stored: Seq<(Seq<char>, Seq<char>)>, c: CtxView) -> (
    Seq<char>,
    Seq<char>,
) {
    match find_dim(stored, col) {
        Some(v) => if v.len() > 0 {
            (col, v)
        } else {
            (col, subst_spec(tpl, c))
        },
        None => (col, subst_spec(tpl, c)),
    }
}

/// Whether some cell is in the column.
pub open spec fn has_col(cells: Seq<(Seq<char>, Seq<char>)>, col: Seq<char>) -> bool {
    exists|i: int| 0 <= i < cells.len() && (#[trigger] cells[i]).0 == col
}

/// The stored non-empty values of columns not yet present, appended in order.
pub open spec fn add_extras(acc: Seq<(Seq<char>, Seq<char>)>, stored: Seq<(Seq<char>, Seq<char>)>) -> Seq<
    (Seq<char>, Seq<char>),
>
    decreases stored.len(),
{
    if stored.len() == 0 {
        acc
    } else {
        let a = add_extras(acc, stored.drop_last());
        let (c, v) = stored.last();
        if v.len() > 0 && !has_col(a, c) {
            a.push((c, v))
        } else {
            a
        }
    }
}

/// The cells of an instance row: the template's columns in order (stored values
/// overriding), then the stored columns the template lacks.
pub open spec fn row_cells_spec(tpls: Seq<(Seq<char>, Seq<char>)>, stored: Seq<(Seq<char>, Seq<char>)>, c: CtxView) -> Seq<
    (Seq<char>, Seq<char>),
> {
    add_extras(tpls.map_values(|t: (Seq<char>, Seq<char>)| tpl_cell(t.0, t.1, stored, c)), stored)
}

/// The first stored value of a column.
fn find_value<'b>(stored: &'b [(String, String)], col: &str) -> (r: Option<&'b String>)
    ensures
        r is Some <==> find_dim(pairs_view(stored@), col@) is Some,
        r matches Some(v) ==> v@ == find_dim(pairs_view(stored@), col@)->0,
{
    let ghost ds = pairs_view(stored@);
    let mut i: usize = 0;
    proof {
        assert(ds.subrange(0, ds.len() as int) =~= ds);
    }
    while i < stored.len()
        invariant
            ds == pairs_view(stored@),
            i <= ds.len(),
            find_dim(ds, col@) == find_dim(ds.subrange(i as int, ds.len() as int), col@),
        decreases ds.len() - i,
    {
        let ghost rest = ds.subrange(i as int, ds.len() as int);
        proof {
            assert(rest[0] == ds[i as int]);
            assert(ds[i as int] == (stored@[i as int].0@, stored@[i as int].1@));
            assert(rest.subrange(1, rest.len() as int) =~= ds.subrange(i + 1, ds.len() as int));
        }
        if str_eq(stored[i].0.as_str(), col) {
            return Some(&stored[i].1);
        }
        i = i + 1;
    }
    proof {
        assert(ds.subrange(i as int, ds.len() as int) =~= Seq::<(Seq<char>, Seq<char>)>::empty());
    }
    None
}

/// Builds one row's cells: stored explicit values override the template formulas,
/// other template columns get their placeholders replaced, and stored columns the
/// template lacks are appended.
fn resolve_row_cells(cell_tpls: &[(String, String)], stored: &[(String, String)], ctx: &SubstCtx) -> (r: Vec<
    (String, String),
>)
    ensures
        pairs_view(r@) == row_cells_spec(pairs_view(cell_tpls@), pairs_view(stored@), ctx@),
{
    let ghost st = pairs_view(stored@);
    let ghost tp = pairs_view(cell_tpls@);
    let ghost base = tp.map_values(|t: (Seq<char>, Seq<char>)| tpl_cell(t.0, t.1, st, ctx@));
    let mut out: Vec<(String, String)> = Vec::new();
    let mut i: usize = 0;
    while i < cell_tpls.len()
        invariant
            st == pairs_view(stored@),
            tp == pairs_view(cell_tpls@),
            base == tp.map_values(|t: (Seq<char>, Seq<char>)| tpl_cell(t.0, t.1, st, ctx@)),
            i <= tp.len(),
            pairs_view(out@) == base.subrange(0, i as int),
        decreases tp.len() - i,
    {
        let col = &cell_tpls[i].0;
        let found = find_value(stored, col.as_str());
        let cell = match found {
            Some(v) => {
                if !v.as_str().is_empty() {
                    (col.clone(), v.clone())
                } else {
                    (col.clone(), substitute(cell_tpls[i].1.as_str(), ctx))
                }
            },
            None => (col.clone(), substitute(cell_tpls[i].1.as_str(), ctx)),
        };
        proof {
            assert(tp[i as int] == (cell_tpls@[i as int].0@, cell_tpls@[i as int].1@));
            assert(base[i as int] == tpl_cell(tp[i as int].0, tp[i as int].1, st, ctx@));
            assert((cell.0@, cell.1@) == base[i as int]);
        }
        let ghost before = out@;
        out.push(cell);
        proof {
            assert(pairs_view(out@) =~= pairs_view(before).push((cell.0@, cell.1@)));
            assert(pairs_view(out@) =~= base.subrange(0, i + 1));
        }
        i = i + 1;
    }
    proof {
        assert(base.subrange(0, tp.len() as int) =~= base);
        assert(st.subrange(0, 0) =~= Seq::<(Seq<char>, Seq<char>)>::empty());
    }
    let mut j: usize = 0;
    while j < stored.len()
        invariant
            st == pairs_view(stored@),
            j <= st.len(),
            pairs_view(out@) == add_extras(base, st.subrange(0, j as int)),
        decreases st.len() - j,
    {
        let ghost acc = pairs_view(out@);
        let (c, v) = (&stored[j].0, &stored[j].1);
        let mut present = false;
        let mut k: usize = 0;
        while k < out.len()
            invariant
                acc == pairs_view(out@),
                k <= acc.len(),
                present == exists|m: int| 0 <= m < k && (#[trigger] acc[m]).0 == c@,
            decreases acc.len() - k,
        {
            if str_eq(out[k].0.as_str(), c.as_str()) {
                present = true;
            }
            proof {
                assert(acc[k as int] == (out@[k as int].0@, out@[k as int].1@));
                if acc[k as int].0 == c@ {
                    assert(exists|m: int| 0 <= m < k + 1 && (#[trigger] acc[m]).0 == c@);
                }
            }
            k = k + 1;
        }
        if !v.as_str().is_empty() && !present {
            out.push((c.clone(), v.clone()));
        }
        proof {
            let p = st.subrange(0, j + 1);
            assert(p.drop_last() =~= st.subrange(0, j as int));
            assert(p.last() == st[j as int]);
            assert(st[j as int] == (stored@[j as int].0@, stored@[j as int].1@));
            assert(present == has_col(acc, c@));
            assert(pairs_view(out@) =~= add_extras(base, p));
        }
        j = j + 1;
    }
    proof {
        assert(st.subrange(0, st.len() as int) =~= st);
    }
    out
}

/// An instance row of a record: derived id, key path, title and cells from the
/// template; the context's parent row is the row's parent.
pub open spec fn detail_row(
    tid: i64,
    name_tpl: Seq<char>,
    cell_tpls: Seq<(Seq<char>, Seq<char>)>,
    rec: SourceRecord,
    phys: i64,
    sort_no: i32,
    total: Option<i64>,
    parent: Option<i64>,
    level: i32,
) -> RowView {
    let c: CtxView = (pairs_view(rec.dims@), rec.label@, Some(phys), total, parent, None);
    let path = dim_path(pairs_view(rec.dims@));
    (
        instance_id(tid, path),
        path,
        subst_spec(name_tpl, c),
        row_cells_spec(cell_tpls, pairs_view(rec.cells@), c),
        sort_no,
        phys,
        "float"@,
        level,
        parent,
    )
}

/// Each row of a flat template expansion over `records` from `start`: its physical
/// row is `start + i`, its sort number `i + 1`, its type `float` at level 1 without
/// parent, its key path that of its record's dimensions, and its id the stable id of
/// the template row and that path.
pub proof fn lemma_template_rows(
    tpl: FloatTemplate,
    records: Seq<SourceRecord>,
    start: i64,
    total: Option<i64>,
    rows: Seq<InstanceRow>,
)
    requires
        start + records.len() <= i64::MAX,
        records.len() < i32::MAX,
        rows.len() == records.len(),
        forall|i: int|
            0 <= i < records.len() ==> (#[trigger] rows[i])@ == detail_row(
                tpl.template_row_id,
                tpl.name_tpl@,
                pairs_view(tpl.cell_tpls@),
                records[i],
                (start + i) as i64,
                (i + 1) as i32,
                total,
                None,
                1,
            ),
    ensures
        forall|i: int|
            0 <= i < rows.len() ==> {
                &&& (#[trigger] rows[i]).phys_row == start + i
                &&& rows[i].sort_no == i + 1
                &&& rows[i].row_type@ == "float"@
                &&& rows[i].level_no == 1
                &&& rows[i].parent_row is None
                &&& rows[i].dim_key_path@ == dim_path(pairs_view(records[i].dims@))
                &&& rows[i].row_id == instance_id(tpl.template_row_id, rows[i].dim_key_path@)
            },
{
    assert forall|i: int| 0 <= i < rows.len() implies {
        &&& (#[trigger] rows[i]).phys_row == start + i
        &&& rows[i].sort_no == i + 1
        &&& rows[i].row_type@ == "float"@
        &&& rows[i].level_no == 1
        &&& rows[i].parent_row is None
        &&& rows[i].dim_key_path@ == dim_path(pairs_view(records[i].dims@))
        &&& rows[i].row_id == instance_id(tpl.template_row_id, rows[i].dim_key_path@)
    } by {
        assert(rows[i]@ == detail_row(
            tpl.template_row_id,
            tpl.name_tpl@,
            pairs_view(tpl.cell_tpls@),
            records[i],
            (start + i) as i64,
            (i + 1) as i32,
            total,
            None,
            1,
        ));
    }
}

/// Builds the instance row of one record.
fn make_detail_row(
    tpl: &FloatTemplate,
    rec: &SourceRecord,
    phys: i64,
    sort_no: i32,
    total: Option<i64>,
    parent: Option<i64>,
    level: i32,
) -> (r: InstanceRow)
    ensures
        r@ == detail_row(
            tpl.template_row_id,
            tpl.name_tpl@,
            pairs_view(tpl.cell_tpls@),
            *rec,
            phys,
            sort_no,
            total,
            parent,
            level,
        ),
{
    let path = dim_key_path(rec.dims.as_slice());
    let ctx = SubstCtx {
        dims: rec.dims.as_slice(),
        label: rec.label.as_str(),
        phys_row: Some(phys),
        total_row: total,
        parent_row: parent,
        col_letter: None,
    };
    let name = substitute(tpl.name_tpl.as_str(), &ctx);
    let cells = resolve_row_cells(tpl.cell_tpls.as_slice(), rec.cells.as_slice(), &ctx);
    let row_id = stable_instance_row_id(tpl.template_row_id, path.as_str());
    InstanceRow {
        row_id,
        dim_key_path: path,
        name,
        cells,
        sort_no,
        phys_row: phys,
        row_type: copy_str("float"),
        level_no: level,
        parent_row: parent,
    }
}

/// Single-level expansion: one instance row per record, from `region_start_row` on
/// (record `i` on row `region_start_row + i`, sort number `i + 1`), no parent.
pub fn expand_template(
    tpl: &FloatTemplate,
    records: &[SourceRecord],
    region_start_row: i64,
    total_row: Option<i64>,
) -> (r: Vec<InstanceRow>)
    requires
        region_start_row + records@.len() <= i64::MAX,
        records@.len() < i32::MAX,
    ensures
        r@.len() == records@.len(),
        forall|i: int|
            0 <= i < records@.len() ==> (#[trigger] r@[i])@ == detail_row(
                tpl.template_row_id,
                tpl.name_tpl@,
                pairs_view(tpl.cell_tpls@),
                records@[i],
                (region_start_row + i) as i64,
                (i + 1) as i32,
                total_row,
                None,
                1,
            ),
{
    let mut out: Vec<InstanceRow> = Vec::new();
    let mut i: usize = 0;
    while i < records.len()
        invariant
            region_start_row + records@.len() <= i64::MAX,
            records@.len() < i32::MAX,
            i <= records@.len(),
            out@.len() == i,
            forall|j: int|
                0 <= j < i ==> (#[trigger] out@[j])@ == detail_row(
                    tpl.template_row_id,
                    tpl.name_tpl@,
                    pairs_view(tpl.cell_tpls@),
                    records@[j],
                    (region_start_row + j) as i64,
                    (j + 1) as i32,
                    total_row,
                    None,
                    1,
                ),
        decreases records@.len() - i,
    {
        let phys = region_start_row + i as i64;
        let row = make_detail_row(tpl, &records[i], phys, i as i32 + 1, total_row, None, 1);
        out.push(row);
        i = i + 1;
    }
    out
}

// ----------------------------------------------------------------------------
// Hierarchical floats
// ----------------------------------------------------------------------------
/// One level of a hierarchical float.
#[derive(Debug, Clone)]
pub struct HierLevel {
    /// Grouping dimension.
    pub dim: String,
    /// `subtotal`: one subtotal row per group; `none`: none.
    pub rollup: String,
    /// Subtotal title template (`{{label}}` = the group's value).
    pub subtotal_name_tpl: String,
}

/// A hierarchical float template.
#[derive(Debug, Clone)]
pub struct HierTemplate {
    /// Detail row template.
    pub leaf: FloatTemplate,
    /// Levels, outermost first.
    pub levels: Vec<HierLevel>,
    /// `total`: a grand-total row on top; `none`: none.
    pub grand_total: String,
    pub grand_total_name: String,
    /// Columns the subtotal and total rows sum.
    pub rollup_cols: Vec<String>,
}

/// The group value of a record (empty when it lacks the dimension).
pub open spec fn group_key(rec: SourceRecord, gdim: Seq<char>) -> Seq<char> {
    match find_dim(pairs_view(rec.dims@), gdim) {
        Some(v) => v,
        None => Seq::empty(),
    }
}

/// The index of the group with key `k`, or −1.
pub open spec fn group_index(gs: Seq<(Seq<char>, Seq<int>)>, k: Seq<char>) -> int
    decreases gs.len(),
{
    if gs.len() == 0 {
        -1
    } else if gs.last().0 == k {
        gs.len() - 1
    } else {
        group_index(gs.drop_last(), k)
    }
}

/// Records grouped by the group dimension: groups in order of first appearance,
/// each with the indices of its records in order.
pub open spec fn groups_of(recs: Seq<SourceRecord>, gdim: Seq<char>) -> Seq<(Seq<char>, Seq<int>)>
    decreases recs.len(),
{
    if recs.len() == 0 {
        Seq::empty()
    } else {
        let gs = groups_of(recs.drop_last(), gdim);
        let k = group_key(recs.last(), gdim);
        let i = group_index(gs, k);
        if i >= 0 {
            gs.update(i, (k, gs[i].1.push(recs.len() - 1)))
        } else {
            gs.push((k, seq![recs.len() - 1]))
        }
    }
}

/// The summing cells of a subtotal or total row: `=SUM({col}{first}:{col}{last})` per
/// rollup column.
pub open spec fn rollup_spec(cols: Seq<String>, first: int, last: int) -> Seq<(Seq<char>, Seq<char>)> {
    cols.map_values(
        |c: String|
            (c@, "=SUM("@ + c@ + int_text(first) + seq![':'] + c@ + int_text(last) + seq![')']),
    )
}

/// Whether the outer level has subtotal rows.
pub open spec fn has_subtotals(tpl: HierTemplate) -> bool {
    tpl.levels@[0].rollup@ == "subtotal"@
}

/// The subtotal row of a group.
pub open spec fn subtotal_row(
    tpl: HierTemplate,
    gval: Seq<char>,
    sub_phys: i64,
    total: Option<i64>,
    first: int,
    last: int,
    sort_no: int,
) -> RowView {
    let gdim = tpl.levels@[0].dim@;
    let c: CtxView = (seq![(gdim, gval)], gval, Some(sub_phys), total, total, None);
    (
        instance_id(tpl.leaf.template_row_id, "__subtotal__;"@ + gdim + seq!['='] + gval),
        gdim + seq!['='] + gval,
        subst_spec(tpl.levels@[0].subtotal_name_tpl@, c),
        rollup_spec(tpl.rollup_cols@, first, last),
        sort_no as i32,
        sub_phys,
        "subtotal"@,
        2,
        total,
    )
}

/// The rows of one group starting at physical row `next` with `out_len` rows before:
/// its detail rows (level 3, parent the subtotal row), then its subtotal row (which
/// sits on the group's first physical row).
pub open spec fn group_block(
    tpl: HierTemplate,
    recs: Seq<SourceRecord>,
    g: (Seq<char>, Seq<int>),
    total: Option<i64>,
    next: int,
    out_len: int,
) -> Seq<RowView> {
    let sub = has_subtotals(tpl);
    let sub_phys: Option<i64> = if sub {
        Some(next as i64)
    } else {
        None
    };
    let first = next + if sub {
        1int
    } else {
        0int
    };
    let m = g.1.len() as int;
    let details = Seq::new(
        m as nat,
        |k: int|
            detail_row(
                tpl.leaf.template_row_id,
                tpl.leaf.name_tpl@,
                pairs_view(tpl.leaf.cell_tpls@),
                recs[g.1[k]],
                (first + k) as i64,
                (out_len + k + 1) as i32,
                total,
                sub_phys,
                3,
            ),
    );
    if sub {
        details.push(subtotal_row(tpl, g.0, next as i64, total, first, first + m - 1, out_len + m + 1))
    } else {
        details
    }
}

/// The rows of the groups in order, and the next free physical row.
pub open spec fn hier_fold(
    tpl: HierTemplate,
    recs: Seq<SourceRecord>,
    gs: Seq<(Seq<char>, Seq<int>)>,
    total: Option<i64>,
    start: int,
) -> (Seq<RowView>, int)
    decreases gs.len(),
{
    if gs.len() == 0 {
        (Seq::empty(), start)
    } else {
        let (rows, next) = hier_fold(tpl, recs, gs.drop_last(), total, start);
        let g = gs.last();
        (
            rows + group_block(tpl, recs, g, total, next, rows.len() as int),
            next + (if has_subtotals(tpl) {
                1int
            } else {
                0int
            }) + g.1.len(),
        )
    }
}

/// Without levels: one detail row per record (level 2, parent the total row).
pub open spec fn flat_rows(tpl: HierTemplate, recs: Seq<SourceRecord>, total: Option<i64>, start: int) -> Seq<
    RowView,
> {
    Seq::new(
        recs.len(),
        |k: int|
            detail_row(
                tpl.leaf.template_row_id,
                tpl.leaf.name_tpl@,
                pairs_view(tpl.leaf.cell_tpls@),
                recs[k],
                (start + k) as i64,
                (k + 1) as i32,
                total,
                total,
                2,
            ),
    )
}

/// The whole hierarchical expansion: the grand-total row first (physical row
/// `start`, summing from the first to the last detail row), then the group blocks
/// (or flat detail rows); physical rows are consecutive from `start`.
pub open spec fn hier_spec(tpl: HierTemplate, recs: Seq<SourceRecord>, start: int) -> Seq<RowView> {
    let has_total = tpl.grand_total@ == "total"@;
    let total: Option<i64> = if has_total {
        Some(start as i64)
    } else {
        None
    };
    let next0 = start + if has_total {
        1int
    } else {
        0int
    };
    let grouped = tpl.levels@.len() > 0;
    let (body, end) = if grouped {
        hier_fold(tpl, recs, groups_of(recs, tpl.levels@[0].dim@), total, next0)
    } else {
        (flat_rows(tpl, recs, total, next0), next0 + recs.len())
    };
    let first_detail = next0 + if grouped && has_subtotals(tpl) {
        1int
    } else {
        0int
    };
    let total_cells = if recs.len() == 0 {
        Seq::empty()
    } else {
        rollup_spec(tpl.rollup_cols@, first_detail, end - 1)
    };
    let total_row: RowView = (
        instance_id(tpl.leaf.template_row_id, "__grand_total__"@),
        "__grand_total__"@,
        tpl.grand_total_name@,
        total_cells,
        0,
        start as i64,
        "total"@,
        1,
        None,
    );
    if has_total {
        seq![total_row] + body
    } else {
        body
    }
}

/// The views of rows.
pub open spec fn rows_view(v: Seq<InstanceRow>) -> Seq<RowView> {
    v.map_values(|r: InstanceRow| r@)
}

/// Groups as plain values.
pub open spec fn groups_view(v: Seq<(String, Vec<usize>)>) -> Seq<(Seq<char>, Seq<int>)> {
    v.map_values(|g: (String, Vec<usize>)| (g.0@, g.1@.map_values(|x: usize| x as int)))
}

proof fn lemma_group_index(gs: Seq<(Seq<char>, Seq<int>)>, k: Seq<char>)
    requires
        forall|a: int, b: int| 0 <= a < b < gs.len() ==> gs[a].0 != gs[b].0,
    ensures
        -1 <= group_index(gs, k) < gs.len(),
        group_index(gs, k) >= 0 ==> gs[group_index(gs, k)].0 == k,
        group_index(gs, k) < 0 ==> forall|j: int| 0 <= j < gs.len() ==> gs[j].0 != k,
        forall|j: int| 0 <= j < gs.len() && gs[j].0 == k ==> group_index(gs, k) == j,
    decreases gs.len(),
{
    if gs.len() > 0 {
        let p = gs.drop_last();
        lemma_group_index(p, k);
        assert forall|j: int| 0 <= j < p.len() implies p[j] == gs[j] by {}
    }
}

/// Groups the records by the outer dimension (first-appearance order).
#[verifier::spinoff_prover]
fn group_records(records: &[SourceRecord], gdim: &str) -> (r: Vec<(String, Vec<usize>)>)
    ensures
        groups_view(r@) == groups_of(records@, gdim@),
        forall|g: int, k: int|
            0 <= g < r@.len() && 0 <= k < r@[g].1@.len() ==> (#[trigger] r@[g].1@[k]) < records@.len(),
{
    let mut groups: Vec<(String, Vec<usize>)> = Vec::new();
    let mut i: usize = 0;
    while i < records.len()
        invariant
            i <= records@.len(),
            groups_view(groups@) == groups_of(records@.subrange(0, i as int), gdim@),
            forall|a: int, b: int|
                0 <= a < b < groups@.len() ==> (#[trigger] groups@[a]).0@ != (#[trigger] groups@[b]).0@,
            forall|g: int, k: int|
                0 <= g < groups@.len() && 0 <= k < groups@[g].1@.len() ==> (#[trigger] groups@[g].1@[k]) < i,
        decreases records@.len() - i,
    {
        let ghost gs = groups_view(groups@);
        let rec = &records[i];
        let gval = match find_value(rec.dims.as_slice(), gdim) {
            Some(v) => v.clone(),
            None => String::new(),
        };
        proof {
            assert(gval@ == group_key(records@[i as int], gdim@));
            let p = records@.subrange(0, i + 1);
            assert(p.drop_last() =~= records@.subrange(0, i as int));
            assert(p.last() == records@[i as int]);
            assert forall|a: int, b: int| 0 <= a < b < gs.len() implies gs[a].0 != gs[b].0 by {
                assert(gs[a].0 == groups@[a].0@ && gs[b].0 == groups@[b].0@);
            }
            lemma_group_index(gs, gval@);
        }
        let mut found: Option<usize> = None;
        let mut g: usize = 0;
        while g < groups.len()
            invariant
                gs == groups_view(groups@),
                g <= groups@.len(),
                found matches Some(x) ==> x < g && groups@[x as int].0@ == gval@,
                found is None ==> forall|j: int| 0 <= j < g ==> (#[trigger] groups@[j]).0@ != gval@,
            decreases groups@.len() - g,
        {
            if found.is_none() && str_eq(groups[g].0.as_str(), gval.as_str()) {
                found = Some(g);
            }
            g = g + 1;
        }
        match found {
            Some(x) => {
                proof {
                    assert(gs[x as int].0 == gval@);
                    assert(group_index(gs, gval@) == x);
                }
                let mut entry = (String::new(), Vec::new());
                std::mem::swap(&mut entry, &mut groups[x]);
                entry.1.push(i);
                let ghost e_view = (entry.0@, entry.1@.map_values(|y: usize| y as int));
                groups.set(x, entry);
                proof {
                    assert(e_view == (gval@, gs[x as int].1.push(i as int)));
                    assert(groups_view(groups@) =~= gs.update(x as int, (gval@, gs[x as int].1.push(i as int))));
                }
            },
            None => {
                proof {
                    assert forall|j: int| 0 <= j < gs.len() implies gs[j].0 != gval@ by {
                        assert(gs[j].0 == groups@[j].0@);
                    }
                }
                let mut v: Vec<usize> = Vec::new();
                v.push(i);
                groups.push((gval, v));
                proof {
                    assert(v@.map_values(|y: usize| y as int) =~= seq![i as int]);
                    assert(groups_view(groups@) =~= gs.push((gval@, seq![i as int])));
                }
            },
        }
        i = i + 1;
    }
    proof {
        assert(records@.subrange(0, records@.len() as int) =~= records@);
    }
    groups
}

/// The total number of records in groups.
pub open spec fn group_sizes(gs: Seq<(Seq<char>, Seq<int>)>) -> int
    decreases gs.len(),
{
    if gs.len() == 0 {
        0
    } else {
        group_sizes(gs.drop_last()) + gs.last().1.len()
    }
}

proof fn lemma_group_sizes_update(gs: Seq<(Seq<char>, Seq<int>)>, i: int, g: (Seq<char>, Seq<int>))
    requires
        0 <= i < gs.len(),
    ensures
        group_sizes(gs.update(i, g)) == group_sizes(gs) - gs[i].1.len() + g.1.len(),
    decreases gs.len(),
{
    let u = gs.update(i, g);
    if i < gs.len() - 1 {
        lemma_group_sizes_update(gs.drop_last(), i, g);
        assert(u.drop_last() =~= gs.drop_last().update(i, g));
    } else {
        assert(u.drop_last() =~= gs.drop_last());
    }
}

/// Every record lands in exactly one group, and no group is empty.
proof fn lemma_groups_total(recs: Seq<SourceRecord>, gdim: Seq<char>)
    ensures
        group_sizes(groups_of(recs, gdim)) == recs.len(),
        forall|i: int| 0 <= i < groups_of(recs, gdim).len() ==> (#[trigger] groups_of(recs, gdim)[i]).1.len() >= 1,
        groups_of(recs, gdim).len() <= recs.len(),
    decreases recs.len(),
{
    if recs.len() > 0 {
        let gs = groups_of(recs.drop_last(), gdim);
        lemma_groups_total(recs.drop_last(), gdim);
        let k = group_key(recs.last(), gdim);
        let i = group_index(gs, k);
        lemma_group_index_range(gs, k);
        if i >= 0 {
            lemma_group_sizes_update(gs, i, (k, gs[i].1.push(recs.len() - 1)));
        } else {
            assert(gs.push((k, seq![recs.len() - 1])).drop_last() =~= gs);
        }
    }
}

proof fn lemma_group_index_range(gs: Seq<(Seq<char>, Seq<int>)>, k: Seq<char>)
    ensures
        -1 <= group_index(gs, k) < gs.len(),
    decreases gs.len(),
{
    if gs.len() > 0 {
        lemma_group_index_range(gs.drop_last(), k);
    }
}

proof fn lemma_group_sizes_prefix(gs: Seq<(Seq<char>, Seq<int>)>, n: int)
    requires
        0 <= n < gs.len(),
        forall|i: int| 0 <= i < gs.len() ==> (#[trigger] gs[i]).1.len() >= 1,
    ensures
        group_sizes(gs.subrange(0, n + 1)) == group_sizes(gs.subrange(0, n)) + gs[n].1.len(),
        group_sizes(gs.subrange(0, n + 1)) <= group_sizes(gs),
    decreases gs.len() - n,
{
    assert(gs.subrange(0, n + 1).drop_last() =~= gs.subrange(0, n));
    if n + 1 < gs.len() {
        lemma_group_sizes_prefix(gs, n + 1);
    } else {
        assert(gs.subrange(0, n + 1) =~= gs);
    }
}

/// The summing cells of a subtotal or total row.
fn rollup_cells(cols: &[String], first_row: i64, last_row: i64) -> (r: Vec<(String, String)>)
    ensures
        pairs_view(r@) == rollup_spec(cols@, first_row as int, last_row as int),
{
    let ghost want = rollup_spec(cols@, first_row as int, last_row as int);
    let mut out: Vec<(String, String)> = Vec::new();
    let mut i: usize = 0;
    while i < cols.len()
        invariant
            want == rollup_spec(cols@, first_row as int, last_row as int),
            i <= cols@.len(),
            pairs_view(out@) == want.subrange(0, i as int),
        decreases cols@.len() - i,
    {
        let c = cols[i].as_str();
        let mut f = copy_str("=SUM(");
        append_str(&mut f, c);
        append_str(&mut f, int_string(first_row).as_str());
        push_char(&mut f, ':');
        append_str(&mut f, c);
        append_str(&mut f, int_string(last_row).as_str());
        push_char(&mut f, ')');
        proof {
            assert(f@ =~= "=SUM("@ + c@ + int_text(first_row as int) + seq![':'] + c@ + int_text(last_row as int) + seq![')']);
            assert(want[i as int] == (cols@[i as int]@, f@));
        }
        let ghost before = out@;
        out.push((cols[i].clone(), f));
        proof {
            assert(pairs_view(out@) =~= pairs_view(before).push((cols@[i as int]@, f@)));
            assert(pairs_view(out@) =~= want.subrange(0, i + 1));
        }
        i = i + 1;
    }
    proof {
        assert(want.subrange(0, cols@.len() as int) =~= want);
    }
    out
}

proof fn lemma_fold_len(tpl: HierTemplate, recs: Seq<SourceRecord>, gs: Seq<(Seq<char>, Seq<int>)>, total: Option<i64>, start: int)
    ensures
        hier_fold(tpl, recs, gs, total, start).1 >= start,
    decreases gs.len(),
{
    if gs.len() > 0 {
        lemma_fold_len(tpl, recs, gs.drop_last(), total, start);
    }
}

proof fn lemma_fold_rows_len(tpl: HierTemplate, recs: Seq<SourceRecord>, gs: Seq<(Seq<char>, Seq<int>)>, total: Option<i64>, start: int)
    ensures
        hier_fold(tpl, recs, gs, total, start).0.len() == group_sizes(gs) + if has_subtotals(tpl) {
            gs.len() as int
        } else {
            0int
        },
    decreases gs.len(),
{
    if gs.len() > 0 {
        lemma_fold_rows_len(tpl, recs, gs.drop_last(), total, start);
    }
}

/// How many rows a hierarchical expansion has: one per record, one subtotal per
/// group of the outer level's dimension where that level asks for subtotals, and one
/// grand total where the template asks for it; without levels, one per record and
/// the grand total.
pub proof fn lemma_hier_row_count(tpl: HierTemplate, recs: Seq<SourceRecord>, start: int)
    ensures
        hier_spec(tpl, recs, start).len() == recs.len() + (if tpl.levels@.len() > 0 && has_subtotals(tpl) {
            groups_of(recs, tpl.levels@[0].dim@).len() as int
        } else {
            0int
        }) + (if tpl.grand_total@ == "total"@ {
            1int
        } else {
            0int
        }),
{
    let has_total = tpl.grand_total@ == "total"@;
    let total: Option<i64> = if has_total {
        Some(start as i64)
    } else {
        None
    };
    let next0 = start + if has_total {
        1int
    } else {
        0int
    };
    if tpl.levels@.len() > 0 {
        let gs = groups_of(recs, tpl.levels@[0].dim@);
        lemma_groups_total(recs, tpl.levels@[0].dim@);
        lemma_fold_rows_len(tpl, recs, gs, total, next0);
    }
}

/// Expanding the same template over the same records from the same row gives the
/// same rows, row ids included: ids derive from the template row and each row's key
/// path alone.
pub proof fn lemma_hier_ids_stable(
    tpl: HierTemplate,
    recs: Seq<SourceRecord>,
    start: i64,
    a: Seq<InstanceRow>,
    b: Seq<InstanceRow>,
)
    requires
        rows_view(a) == hier_spec(tpl, recs, start as int),
        rows_view(b) == hier_spec(tpl, recs, start as int),
    ensures
        a.len() == b.len(),
        forall|i: int| 0 <= i < a.len() ==> (#[trigger] a[i]).row_id == b[i].row_id && a[i].dim_key_path@ == b[i].dim_key_path@,
{
    assert(rows_view(a).len() == a.len() && rows_view(b).len() == b.len());
    assert forall|i: int| 0 <= i < a.len() implies (#[trigger] a[i]).row_id == b[i].row_id && a[i].dim_key_path@
        == b[i].dim_key_path@ by {
        assert(rows_view(a)[i] == a[i]@);
        assert(rows_view(b)[i] == b[i]@);
        assert(rows_view(a)[i] == rows_view(b)[i]);
    }
}

// ----------------------------------------------------------------------------
// Where the rows of a hierarchical expansion sit
// ----------------------------------------------------------------------------
/// The rows take the physical rows `lo .. lo + rows.len()`, one each.
pub open spec fn phys_cover(rows: Seq<RowView>, lo: int) -> bool {
    &&& forall|i: int| 0 <= i < rows.len() ==> lo <= (#[trigger] rows[i]).5 < lo + rows.len()
    &&& forall|i: int, j: int| 0 <= i < j < rows.len() ==> (#[trigger] rows[i]).5 != (#[trigger] rows[j]).5
    &&& forall|p: int| lo <= p < lo + rows.len() ==> #[trigger] phys_taken(rows, p)
}

/// Some row sits on physical row `p`.
pub open spec fn phys_taken(rows: Seq<RowView>, p: int) -> bool {
    exists|i: int| 0 <= i < rows.len() && (#[trigger] rows[i]).5 == p
}

/// How many rows are detail (`float`) rows.
pub open spec fn float_count(rows: Seq<RowView>) -> int
    decreases rows.len(),
{
    if rows.len() == 0 {
        0
    } else {
        float_count(rows.drop_last()) + if rows.last().6 == "float"@ {
            1int
        } else {
            0int
        }
    }
}

/// A detail or subtotal row.
pub open spec fn body_row(r: RowView) -> bool {
    r.6 == "float"@ || r.6 == "subtotal"@
}

proof fn lemma_cover_concat(a: Seq<RowView>, b: Seq<RowView>, lo: int)
    requires
        phys_cover(a, lo),
        phys_cover(b, lo + a.len()),
    ensures
        phys_cover(a + b, lo),
{
    let c = a + b;
    assert forall|i: int| 0 <= i < c.len() implies lo <= (#[trigger] c[i]).5 < lo + c.len() by {
        if i < a.len() {
            assert(c[i] == a[i]);
        } else {
            assert(c[i] == b[i - a.len()]);
        }
    }
    assert forall|i: int, j: int| 0 <= i < j < c.len() implies (#[trigger] c[i]).5 != (#[trigger] c[j]).5 by {
        if j < a.len() {
            assert(c[i] == a[i] && c[j] == a[j]);
        } else if i >= a.len() {
            assert(c[i] == b[i - a.len()] && c[j] == b[j - a.len()]);
        } else {
            assert(c[i] == a[i] && c[j] == b[j - a.len()]);
        }
    }
    assert forall|p: int| lo <= p < lo + c.len() implies phys_taken(c, p) by {
        if p < lo + a.len() {
            assert(phys_taken(a, p));
            let i = choose|i: int| 0 <= i < a.len() && (#[trigger] a[i]).5 == p;
            assert(c[i] == a[i]);
        } else {
            assert(phys_taken(b, p - a.len()) || phys_taken(b, p));
            assert(phys_taken(b, p));
            let i = choose|i: int| 0 <= i < b.len() && (#[trigger] b[i]).5 == p;
            assert(c[i + a.len()] == b[i]);
        }
    }
}

proof fn lemma_float_count_concat(a: Seq<RowView>, b: Seq<RowView>)
    ensures
        float_count(a + b) == float_count(a) + float_count(b),
    decreases b.len(),
{
    if b.len() > 0 {
        assert((a + b).drop_last() =~= a + b.drop_last());
        lemma_float_count_concat(a, b.drop_last());
    } else {
        assert(a + b =~= a);
    }
}

proof fn lemma_float_count_all(rows: Seq<RowView>)
    requires
        forall|i: int| 0 <= i < rows.len() ==> (#[trigger] rows[i]).6 == "float"@,
    ensures
        float_count(rows) == rows.len(),
    decreases rows.len(),
{
    if rows.len() > 0 {
        lemma_float_count_all(rows.drop_last());
    }
}

proof fn lemma_block_layout(
    tpl: HierTemplate,
    recs: Seq<SourceRecord>,
    g: (Seq<char>, Seq<int>),
    total: Option<i64>,
    next: int,
    out_len: int,
)
    requires
        i64::MIN <= next,
        next + g.1.len() + 1 <= i64::MAX,
    ensures
        group_block(tpl, recs, g, total, next, out_len).len() == g.1.len() + if has_subtotals(tpl) {
            1int
        } else {
            0int
        },
        phys_cover(group_block(tpl, recs, g, total, next, out_len), next),
        float_count(group_block(tpl, recs, g, total, next, out_len)) == g.1.len(),
        forall|i: int|
            0 <= i < group_block(tpl, recs, g, total, next, out_len).len() ==> body_row(
                #[trigger] group_block(tpl, recs, g, total, next, out_len)[i],
            ),
{
    reveal_strlit("float");
    reveal_strlit("subtotal");
    let sub = has_subtotals(tpl);
    let sub_phys: Option<i64> = if sub {
        Some(next as i64)
    } else {
        None
    };
    let first = next + if sub {
        1int
    } else {
        0int
    };
    let m = g.1.len() as int;
    let details = Seq::new(
        m as nat,
        |k: int|
            detail_row(
                tpl.leaf.template_row_id,
                tpl.leaf.name_tpl@,
                pairs_view(tpl.leaf.cell_tpls@),
                recs[g.1[k]],
                (first + k) as i64,
                (out_len + k + 1) as i32,
                total,
                sub_phys,
                3,
            ),
    );
    let rows = group_block(tpl, recs, g, total, next, out_len);
    assert forall|k: int| 0 <= k < m implies (#[trigger] details[k]).5 == first + k && details[k].6 == "float"@ by {
    }
    lemma_float_count_all(details);
    if sub {
        let st = subtotal_row(tpl, g.0, next as i64, total, first, first + m - 1, out_len + m + 1);
        assert(rows == details.push(st));
        assert(st.5 == next);
        assert(st.6 == "subtotal"@);
        assert("subtotal"@ != "float"@) by {
            assert("subtotal"@.len() != "float"@.len());
        }
        assert(rows.drop_last() =~= details);
        assert forall|i: int| 0 <= i < rows.len() implies next <= (#[trigger] rows[i]).5 < next + rows.len() by {
            if i < m {
                assert(rows[i] == details[i]);
            }
        }
        assert forall|i: int, j: int| 0 <= i < j < rows.len() implies (#[trigger] rows[i]).5 != (#[trigger] rows[j]).5 by {
            assert(rows[i] == details[i]);
            if j < m {
                assert(rows[j] == details[j]);
            }
        }
        assert forall|p: int| next <= p < next + rows.len() implies phys_taken(rows, p) by {
            if p == next {
                assert(rows[m] == st);
            } else {
                assert(rows[p - next - 1] == details[p - next - 1]);
            }
        }
        assert forall|i: int| 0 <= i < rows.len() implies body_row(#[trigger] rows[i]) by {
            if i < m {
                assert(rows[i] == details[i]);
            }
        }
    } else {
        assert(rows == details);
        assert forall|p: int| next <= p < next + rows.len() implies phys_taken(rows, p) by {
            assert(rows[p - next].5 == p);
        }
    }
}

proof fn lemma_fold_layout(
    tpl: HierTemplate,
    recs: Seq<SourceRecord>,
    gs: Seq<(Seq<char>, Seq<int>)>,
    total: Option<i64>,
    start: int,
)
    requires
        i64::MIN <= start,
        start + group_sizes(gs) + gs.len() <= i64::MAX,
        forall|i: int| 0 <= i < gs.len() ==> (#[trigger] gs[i]).1.len() >= 0,
    ensures
        hier_fold(tpl, recs, gs, total, start).1 == start + hier_fold(tpl, recs, gs, total, start).0.len(),
        phys_cover(hier_fold(tpl, recs, gs, total, start).0, start),
        float_count(hier_fold(tpl, recs, gs, total, start).0) == group_sizes(gs),
        forall|i: int|
            0 <= i < hier_fold(tpl, recs, gs, total, start).0.len() ==> body_row(
                #[trigger] hier_fold(tpl, recs, gs, total, start).0[i],
            ),
    decreases gs.len(),
{
    if gs.len() == 0 {
    } else {
        let pre = gs.drop_last();
        assert forall|i: int| 0 <= i < pre.len() implies (#[trigger] pre[i]).1.len() >= 0 by {
            assert(pre[i] == gs[i]);
        }
        lemma_group_sizes_nonneg(pre);
        lemma_fold_layout(tpl, recs, pre, total, start);
        lemma_fold_rows_len(tpl, recs, pre, total, start);
        let (rows, next) = hier_fold(tpl, recs, pre, total, start);
        let g = gs.last();
        let block = group_block(tpl, recs, g, total, next, rows.len() as int);
        lemma_block_layout(tpl, recs, g, total, next, rows.len() as int);
        lemma_cover_concat(rows, block, start);
        lemma_float_count_concat(rows, block);
        let all = rows + block;
        assert forall|i: int| 0 <= i < all.len() implies body_row(#[trigger] all[i]) by {
            if i < rows.len() {
                assert(all[i] == rows[i]);
            } else {
                assert(all[i] == block[i - rows.len()]);
            }
        }
    }
}

proof fn lemma_group_sizes_nonneg(gs: Seq<(Seq<char>, Seq<int>)>)
    ensures
        group_sizes(gs) >= 0,
    decreases gs.len(),
{
    if gs.len() > 0 {
        lemma_group_sizes_nonneg(gs.drop_last());
    }
}

/// The detail and subtotal rows of a hierarchical expansion, from physical row `next0`.
pub open spec fn hier_body(tpl: HierTemplate, recs: Seq<SourceRecord>, total: Option<i64>, next0: int) -> Seq<RowView> {
    if tpl.levels@.len() > 0 {
        hier_fold(tpl, recs, groups_of(recs, tpl.levels@[0].dim@), total, next0).0
    } else {
        flat_rows(tpl, recs, total, next0)
    }
}

proof fn lemma_hier_shape(tpl: HierTemplate, recs: Seq<SourceRecord>, start: int)
    ensures
        ({
            let has_total = tpl.grand_total@ == "total"@;
            let total: Option<i64> = if has_total {
                Some(start as i64)
            } else {
                None
            };
            let next0 = start + if has_total {
                1int
            } else {
                0int
            };
            let rows = hier_spec(tpl, recs, start);
            &&& has_total ==> rows == seq![rows[0]] + hier_body(tpl, recs, total, next0) && rows[0].5 == start as i64
                && rows[0].6 == "total"@ && rows[0].8 is None
            &&& !has_total ==> rows == hier_body(tpl, recs, total, next0)
        }),
{
    let has_total = tpl.grand_total@ == "total"@;
    let rows = hier_spec(tpl, recs, start);
    if has_total {
        assert(rows =~= seq![rows[0]] + (rows.subrange(1, rows.len() as int)));
    }
}

proof fn lemma_body_layout(tpl: HierTemplate, recs: Seq<SourceRecord>, total: Option<i64>, next0: int)
    requires
        i64::MIN <= next0,
        next0 + 2 * recs.len() + 1 <= i64::MAX,
    ensures
        phys_cover(hier_body(tpl, recs, total, next0), next0),
        float_count(hier_body(tpl, recs, total, next0)) == recs.len(),
        forall|i: int|
            0 <= i < hier_body(tpl, recs, total, next0).len() ==> body_row(#[trigger] hier_body(tpl, recs, total, next0)[i]),
{
    reveal_strlit("float");
    if tpl.levels@.len() > 0 {
        let gs = groups_of(recs, tpl.levels@[0].dim@);
        lemma_groups_total(recs, tpl.levels@[0].dim@);
        lemma_fold_layout(tpl, recs, gs, total, next0);
    } else {
        let fr = flat_rows(tpl, recs, total, next0);
        assert forall|k: int| 0 <= k < fr.len() implies (#[trigger] fr[k]).5 == next0 + k && fr[k].6 == "float"@ by {
        }
        assert forall|p: int| next0 <= p < next0 + fr.len() implies phys_taken(fr, p) by {
            assert(fr[p - next0].5 == p);
        }
        lemma_float_count_all(fr);
        assert forall|i: int| 0 <= i < fr.len() implies body_row(#[trigger] fr[i]) by {
        }
    }
}

/// Where the rows of a hierarchical expansion from physical row `start` sit: they
/// take the physical rows `start .. start + n` (n the row count), one each, so no
/// two rows share one; exactly one row per record is a detail (`float`) row; a
/// `total` row appears exactly when the template asks for a grand total, and then it
/// is the first row, on `start`, with no parent; every other row is a detail or a
/// subtotal row.
pub proof fn lemma_hier_layout(tpl: HierTemplate, recs: Seq<SourceRecord>, start: int)
    requires
        i64::MIN <= start,
        start + 2 * recs.len() + 2 <= i64::MAX,
    ensures
        phys_cover(hier_spec(tpl, recs, start), start),
        float_count(hier_spec(tpl, recs, start)) == recs.len(),
        tpl.grand_total@ == "total"@ ==> hier_spec(tpl, recs, start)[0].6 == "total"@ && hier_spec(tpl, recs, start)[0].5
            == start && hier_spec(tpl, recs, start)[0].8 is None,
        forall|i: int|
            0 <= i < hier_spec(tpl, recs, start).len() && (#[trigger] hier_spec(tpl, recs, start)[i]).6 == "total"@ ==> i == 0
                && tpl.grand_total@ == "total"@,
{
    reveal_strlit("float");
    reveal_strlit("subtotal");
    reveal_strlit("total");
    assert("float"@ != "total"@) by {
        assert("float"@[0] != "total"@[0]);
    }
    assert("subtotal"@ != "total"@) by {
        assert("subtotal"@.len() != "total"@.len());
    }
    let has_total = tpl.grand_total@ == "total"@;
    let total: Option<i64> = if has_total {
        Some(start as i64)
    } else {
        None
    };
    let next0 = start + if has_total {
        1int
    } else {
        0int
    };
    let rows = hier_spec(tpl, recs, start);
    let body = hier_body(tpl, recs, total, next0);
    lemma_hier_shape(tpl, recs, start);
    lemma_body_layout(tpl, recs, total, next0);
    if has_total {
        let t = rows[0];
        assert(phys_cover(seq![t], start)) by {
            assert(seq![t][0] == t);
            assert(phys_taken(seq![t], start));
        }
        lemma_cover_concat(seq![t], body, start);
        lemma_float_count_concat(seq![t], body);
        assert(float_count(seq![t]) == 0) by {
            assert(float_count(Seq::<RowView>::empty()) == 0);
            assert(seq![t].drop_last() =~= Seq::<RowView>::empty());
            assert(seq![t].last() == t);
            assert(t.6 != "float"@);
        }
        assert forall|i: int| 0 <= i < rows.len() && (#[trigger] rows[i]).6 == "total"@ implies i == 0 by {
            if i > 0 {
                assert(rows[i] == body[i - 1]);
                assert(body_row(body[i - 1]));
            }
        }
    } else {
        assert forall|i: int| 0 <= i < rows.len() && (#[trigger] rows[i]).6 == "total"@ implies false by {
            assert(body_row(body[i]));
        }
    }
}

/// Appends the detail rows of one group and its subtotal row.
fn emit_group(
    tpl: &HierTemplate,
    records: &[SourceRecord],
    gval: &str,
    members: &Vec<usize>,
    out: &mut Vec<InstanceRow>,
    next_row: i64,
    total_row_phys: Option<i64>,
) -> (nx: i64)
    requires
        tpl.levels@.len() > 0,
        forall|j: int| 0 <= j < members@.len() ==> (#[trigger] members@[j]) < records@.len(),
        next_row + members@.len() + 1 <= i64::MAX,
        members@.len() > 0,
        old(out)@.len() + members@.len() + 2 < i32::MAX,
    ensures
        final(out)@.len() == old(out)@.len() + members@.len() + (if has_subtotals(*tpl) {
            1int
        } else {
            0int
        }),
        rows_view(final(out)@) == rows_view(old(out)@) + group_block(
            *tpl,
            records@,
            (gval@, members@.map_values(|y: usize| y as int)),
            total_row_phys,
            next_row as int,
            old(out)@.len() as int,
        ),
        nx == next_row + (if has_subtotals(*tpl) {
            1int
        } else {
            0int
        }) + members@.len(),
{
    let glevel = &tpl.levels[0];
    let sub = str_eq(glevel.rollup.as_str(), "subtotal");
    let ghost rows0 = rows_view(out@);
    let ghost len0 = out@.len() as int;
    let mut next = next_row;
    let subtotal_phys = if sub {
        let r = next;
        next = next + 1;
        Some(r)
    } else {
        None
    };
    let group_first = next;
    let mut k: usize = 0;
    while k < members.len()
        invariant
            k <= members@.len(),
            next == group_first + k,
            out@.len() == len0 + k,
            rows_view(out@) == rows0 + Seq::new(
                k as nat,
                |j: int|
                    detail_row(
                        tpl.leaf.template_row_id,
                        tpl.leaf.name_tpl@,
                        pairs_view(tpl.leaf.cell_tpls@),
                        records@[members@[j] as int],
                        (group_first + j) as i64,
                        (len0 + j + 1) as i32,
                        total_row_phys,
                        subtotal_phys,
                        3,
                    ),
            ),
            forall|j: int| 0 <= j < members@.len() ==> (#[trigger] members@[j]) < records@.len(),
            group_first + members@.len() <= i64::MAX,
            members@.len() > 0,
            next >= group_first,
            len0 + members@.len() + 2 < i32::MAX,
            rows0.len() == len0,
        decreases members@.len() - k,
    {
        let idx = members[k];
        let phys = next;
        next = next + 1;
        let row = make_detail_row(&tpl.leaf, &records[idx], phys, out.len() as i32 + 1, total_row_phys, subtotal_phys, 3);
        let ghost before = rows_view(out@);
        out.push(row);
        proof {
            assert(rows_view(out@) =~= before.push(row@));
            assert(rows_view(out@) =~= rows0 + Seq::new(
                (k + 1) as nat,
                |j: int|
                    detail_row(
                        tpl.leaf.template_row_id,
                        tpl.leaf.name_tpl@,
                        pairs_view(tpl.leaf.cell_tpls@),
                        records@[members@[j] as int],
                        (group_first + j) as i64,
                        (len0 + j + 1) as i32,
                        total_row_phys,
                        subtotal_phys,
                        3,
                    ),
            ));
        }
        k = k + 1;
    }
    let ghost g = (gval@, members@.map_values(|y: usize| y as int));
    let ghost details = Seq::new(
        members@.len(),
        |j: int|
            detail_row(
                tpl.leaf.template_row_id,
                tpl.leaf.name_tpl@,
                pairs_view(tpl.leaf.cell_tpls@),
                records@[g.1[j]],
                (group_first + j) as i64,
                (len0 + j + 1) as i32,
                total_row_phys,
                subtotal_phys,
                3,
            ),
    );
    proof {
        assert(rows_view(out@) =~= rows0 + details);
    }
    let group_last = next - 1;
    if let Some(sub_phys) = subtotal_phys {
        let gdim = glevel.dim.as_str();
        let one: Vec<(String, String)> = vec![(copy_str(gdim), copy_str(gval))];
        let sctx = SubstCtx {
            dims: one.as_slice(),
            label: gval,
            phys_row: Some(sub_phys),
            total_row: total_row_phys,
            parent_row: total_row_phys,
            col_letter: None,
        };
        proof {
            assert(pairs_view(one@) =~= seq![(gdim@, gval@)]);
        }
        let sub_name = substitute(glevel.subtotal_name_tpl.as_str(), &sctx);
        let cells = rollup_cells(tpl.rollup_cols.as_slice(), group_first, group_last);
        let mut seed = copy_str("__subtotal__;");
        append_str(&mut seed, gdim);
        push_char(&mut seed, '=');
        append_str(&mut seed, gval);
        let mut path = copy_str(gdim);
        push_char(&mut path, '=');
        append_str(&mut path, gval);
        proof {
            assert(seed@ =~= "__subtotal__;"@ + gdim@ + seq!['='] + gval@);
            assert(path@ =~= gdim@ + seq!['='] + gval@);
        }
        let row = InstanceRow {
            row_id: stable_instance_row_id(tpl.leaf.template_row_id, seed.as_str()),
            dim_key_path: path,
            name: sub_name,
            cells,
            sort_no: out.len() as i32 + 1,
            phys_row: sub_phys,
            row_type: copy_str("subtotal"),
            level_no: 2,
            parent_row: total_row_phys,
        };
        proof {
            assert(row@ == subtotal_row(
                *tpl,
                gval@,
                next_row,
                total_row_phys,
                group_first as int,
                group_first + members@.len() - 1,
                len0 + members@.len() + 1,
            ));
        }
        let ghost before = rows_view(out@);
        out.push(row);
        proof {
            assert(rows_view(out@) =~= before.push(row@));
        }
    }
    next
}

/// Appends one detail row per record (no levels).
fn emit_flat(
    tpl: &HierTemplate,
    records: &[SourceRecord],
    out: &mut Vec<InstanceRow>,
    next_row: i64,
    total_row_phys: Option<i64>,
)
    requires
        old(out)@.len() == 0,
        next_row + records@.len() <= i64::MAX,
        records@.len() + 2 < i32::MAX,
    ensures
        rows_view(final(out)@) == flat_rows(*tpl, records@, total_row_phys, next_row as int),
{
    let mut i: usize = 0;
    while i < records.len()
        invariant
            i <= records@.len(),
            out@.len() == i,
            rows_view(out@) == Seq::new(
                i as nat,
                |k: int|
                    detail_row(
                        tpl.leaf.template_row_id,
                        tpl.leaf.name_tpl@,
                        pairs_view(tpl.leaf.cell_tpls@),
                        records@[k],
                        (next_row + k) as i64,
                        (k + 1) as i32,
                        total_row_phys,
                        total_row_phys,
                        2,
                    ),
            ),
            next_row + records@.len() <= i64::MAX,
            records@.len() + 2 < i32::MAX,
        decreases records@.len() - i,
    {
        let row = make_detail_row(&tpl.leaf, &records[i], next_row + i as i64, i as i32 + 1, total_row_phys, total_row_phys, 2);
        let ghost before = rows_view(out@);
        out.push(row);
        proof {
            assert(rows_view(out@) =~= before.push(row@));
            assert(rows_view(out@) =~= Seq::new(
                (i + 1) as nat,
                |k: int|
                    detail_row(
                        tpl.leaf.template_row_id,
                        tpl.leaf.name_tpl@,
                        pairs_view(tpl.leaf.cell_tpls@),
                        records@[k],
                        (next_row + k) as i64,
                        (k + 1) as i32,
                        total_row_phys,
                        total_row_phys,
                        2,
                    ),
            ));
        }
        i = i + 1;
    }
}

/// Appends the blocks of all groups; returns the next free row.
fn emit_groups(
    tpl: &HierTemplate,
    records: &[SourceRecord],
    out: &mut Vec<InstanceRow>,
    next0: i64,
    total_row_phys: Option<i64>,
) -> (nx: i64)
    requires
        tpl.levels@.len() > 0,
        old(out)@.len() == 0,
        next0 + 2 * records@.len() + 1 <= i64::MAX,
        2 * records@.len() + 2 < i32::MAX,
    ensures
        nx >= next0,
        rows_view(final(out)@) == hier_fold(*tpl, records@, groups_of(records@, tpl.levels@[0].dim@), total_row_phys, next0 as int).0,
        nx == hier_fold(*tpl, records@, groups_of(records@, tpl.levels@[0].dim@), total_row_phys, next0 as int).1,
{
    let groups = group_records(records, tpl.levels[0].dim.as_str());
    let ghost gs = groups_view(groups@);
    proof {
        lemma_groups_total(records@, tpl.levels@[0].dim@);
        assert(gs.subrange(0, 0) =~= Seq::<(Seq<char>, Seq<int>)>::empty());
        assert(rows_view(out@) =~= Seq::<RowView>::empty());
    }
    let mut next_row = next0;
    let mut gi: usize = 0;
    while gi < groups.len()
        invariant
            gs == groups_view(groups@),
            gs == groups_of(records@, tpl.levels@[0].dim@),
            tpl.levels@.len() > 0,
            gi <= gs.len(),
            forall|g: int, k: int|
                0 <= g < groups@.len() && 0 <= k < groups@[g].1@.len() ==> (#[trigger] groups@[g].1@[k]) < records@.len(),
            forall|i: int| 0 <= i < gs.len() ==> (#[trigger] gs[i]).1.len() >= 1,
            group_sizes(gs) == records@.len(),
            rows_view(out@) == hier_fold(*tpl, records@, gs.subrange(0, gi as int), total_row_phys, next0 as int).0,
            next_row == hier_fold(*tpl, records@, gs.subrange(0, gi as int), total_row_phys, next0 as int).1,
            out@.len() <= 2 * group_sizes(gs.subrange(0, gi as int)),
            next_row <= next0 + 2 * group_sizes(gs.subrange(0, gi as int)),
            next_row >= next0,
            next0 + 2 * records@.len() + 1 <= i64::MAX,
            2 * records@.len() + 2 < i32::MAX,
        decreases gs.len() - gi,
    {
        let ghost pre = gs.subrange(0, gi as int);
        proof {
            lemma_group_sizes_prefix(gs, gi as int);
            assert(gs[gi as int] == (groups@[gi as int].0@, groups@[gi as int].1@.map_values(|y: usize| y as int)));
            assert(gs[gi as int].1.len() == groups@[gi as int].1@.len());
            assert forall|j: int| 0 <= j < groups@[gi as int].1@.len() implies (#[trigger] groups@[gi as int].1@[j]) < records@.len() by {}
        }
        let ghost out0 = rows_view(out@);
        let ghost n0 = next_row as int;
        next_row = emit_group(tpl, records, groups[gi].0.as_str(), &groups[gi].1, out, next_row, total_row_phys);
        proof {
            let nx = gs.subrange(0, gi + 1);
            assert(nx.drop_last() =~= pre);
            assert(nx.last() == gs[gi as int]);
            assert(out0.len() == hier_fold(*tpl, records@, pre, total_row_phys, next0 as int).0.len());
        }
        gi = gi + 1;
    }
    proof {
        assert(gs.subrange(0, gs.len() as int) =~= gs);
        lemma_fold_len(*tpl, records@, gs, total_row_phys, next0 as int);
    }
    next_row
}

/// Hierarchical expansion: records grouped by the outer level's dimension (groups in
/// order of first appearance), a subtotal row per group when the level asks for it,
/// a grand-total row when the template asks for it; physical rows are consecutive
/// from `region_start_row` (total row first, each subtotal row before its details).
pub fn expand_hierarchy(tpl: &HierTemplate, records: &[SourceRecord], region_start_row: i64) -> (r: Vec<
    InstanceRow,
>)
    requires
        region_start_row + 2 * records@.len() + 2 <= i64::MAX,
        2 * records@.len() + 2 < i32::MAX,
    ensures
        rows_view(r@) == hier_spec(*tpl, records@, region_start_row as int),
{
    let mut out: Vec<InstanceRow> = Vec::new();
    let has_total = str_eq(tpl.grand_total.as_str(), "total");
    let total_row_phys = if has_total {
        Some(region_start_row)
    } else {
        None
    };
    let next0 = if has_total {
        region_start_row + 1
    } else {
        region_start_row
    };
    let grouped = tpl.levels.len() > 0;
    let end = if grouped {
        emit_groups(tpl, records, &mut out, next0, total_row_phys)
    } else {
        emit_flat(tpl, records, &mut out, next0, total_row_phys);
        next0 + records.len() as i64
    };
    let first_detail = if grouped && str_eq(tpl.levels[0].rollup.as_str(), "subtotal") {
        next0 + 1
    } else {
        next0
    };
    if let Some(tphys) = total_row_phys {
        let cells = if records.len() == 0 {
            let e: Vec<(String, String)> = Vec::new();
            proof {
                assert(pairs_view(e@) =~= Seq::<(Seq<char>, Seq<char>)>::empty());
            }
            e
        } else {
            rollup_cells(tpl.rollup_cols.as_slice(), first_detail, end - 1)
        };
        let total = InstanceRow {
            row_id: stable_instance_row_id(tpl.leaf.template_row_id, "__grand_total__"),
            dim_key_path: copy_str("__grand_total__"),
            name: tpl.grand_total_name.clone(),
            cells,
            sort_no: 0,
            phys_row: tphys,
            row_type: copy_str("total"),
            level_no: 1,
            parent_row: None,
        };
        let ghost before = rows_view(out@);
        out.insert(0, total);
        proof {
            assert(rows_view(out@) =~= seq![total@] + before);
        }
    }
    out
}

// ----------------------------------------------------------------------------
// Column floats
// ----------------------------------------------------------------------------
/// The column letters of a 0-based column index (0 → A, 25 → Z, 26 → AA).
pub fn col_index_to_letter(idx: i64) -> (r: String)
    requires
        idx < i64::MAX,
    ensures
        r@ == col_text(idx as int),
{
    col_to_letters(idx)
}

/// A float template column: per data row, the formula of that row's cell.
#[derive(Debug, Clone)]
pub struct ColFloatTemplate {
    pub template_col_id: i64,
    /// Header template (`{{label}}` = record label).
    pub header_tpl: String,
    /// `(row number 1-based, formula template)`; `{{c}}` is the instance column letter.
    pub row_tpls: Vec<(i64, String)>,
}

/// An instance column as plain values: (column id, key path, header, letter, index,
/// cells, sort number).
pub type ColView = (i64, Seq<char>, Seq<char>, Seq<char>, i64, Seq<(i64, Seq<char>)>, i32);

/// An expanded instance column.
#[derive(Debug, Clone, PartialEq)]
pub struct ColInstance {
    pub col_id: i64,
    pub dim_key_path: String,
    pub header: String,
    pub col_letter: String,
    /// 0-based physical column.
    pub col_index: i64,
    /// `(row number, formula)`.
    pub cells: Vec<(i64, String)>,
    pub sort_no: i32,
}

/// Row-numbered cells as plain values.
pub open spec fn row_cells_view(v: Seq<(i64, String)>) -> Seq<(i64, Seq<char>)> {
    v.map_values(|p: (i64, String)| (p.0, p.1@))
}

impl View for ColInstance {
    type V = ColView;

    open spec fn view(&self) -> ColView {
        (
            self.col_id,
            self.dim_key_path@,
            self.header@,
            self.col_letter@,
            self.col_index,
            row_cells_view(self.cells@),
            self.sort_no,
        )
    }
}

/// One cell of an instance column: a non-empty stored value keyed by the row number
/// wins; otherwise the template with `{{r}}` = that row and `{{c}}` = the letter.
pub open spec fn col_cell(row_no: i64, f: Seq<char>, rec: SourceRecord, letter: Seq<char>) -> (i64, Seq<char>) {
    let c: CtxView = (pairs_view(rec.dims@), rec.label@, Some(row_no), None, None, Some(letter));
    match find_dim(pairs_view(rec.cells@), int_text(row_no as int)) {
        Some(v) => if v.len() > 0 {
            (row_no, v)
        } else {
            (row_no, subst_spec(f, c))
        },
        None => (row_no, subst_spec(f, c)),
    }
}

/// The instance column of record `idx` at physical column `ci`.
pub open spec fn col_instance(tpl: ColFloatTemplate, rec: SourceRecord, ci: i64, idx: int) -> ColView {
    let letter = col_text(ci as int);
    let path = dim_path(pairs_view(rec.dims@));
    let hc: CtxView = (pairs_view(rec.dims@), rec.label@, None, None, None, Some(letter));
    (
        instance_id(tpl.template_col_id, path),
        path,
        subst_spec(tpl.header_tpl@, hc),
        letter,
        ci,
        tpl.row_tpls@.map_values(|t: (i64, String)| col_cell(t.0, t.1@, rec, letter)),
        (idx + 1) as i32,
    )
}

fn make_col(tpl: &ColFloatTemplate, rec: &SourceRecord, ci: i64, idx: usize) -> (r: ColInstance)
    requires
        ci < i64::MAX,
        idx < i32::MAX,
    ensures
        r@ == col_instance(*tpl, *rec, ci, idx as int),
{
    let letter = col_index_to_letter(ci);
    let path = dim_key_path(rec.dims.as_slice());
    let ctx = SubstCtx {
        dims: rec.dims.as_slice(),
        label: rec.label.as_str(),
        phys_row: None,
        total_row: None,
        parent_row: None,
        col_letter: Some(letter.clone()),
    };
    let header = substitute(tpl.header_tpl.as_str(), &ctx);
    let ghost want = tpl.row_tpls@.map_values(|t: (i64, String)| col_cell(t.0, t.1@, *rec, letter@));
    let mut cells: Vec<(i64, String)> = Vec::new();
    let mut k: usize = 0;
    while k < tpl.row_tpls.len()
        invariant
            want == tpl.row_tpls@.map_values(|t: (i64, String)| col_cell(t.0, t.1@, *rec, letter@)),
            k <= tpl.row_tpls@.len(),
            row_cells_view(cells@) == want.subrange(0, k as int),
        decreases tpl.row_tpls@.len() - k,
    {
        let row_no = tpl.row_tpls[k].0;
        let key = int_string(row_no);
        let cell_ctx = SubstCtx {
            dims: rec.dims.as_slice(),
            label: rec.label.as_str(),
            phys_row: Some(row_no),
            total_row: None,
            parent_row: None,
            col_letter: Some(letter.clone()),
        };
        let found = find_value(rec.cells.as_slice(), key.as_str());
        let cell = match found {
            Some(v) => {
                if !v.as_str().is_empty() {
                    (row_no, v.clone())
                } else {
                    (row_no, substitute(tpl.row_tpls[k].1.as_str(), &cell_ctx))
                }
            },
            None => (row_no, substitute(tpl.row_tpls[k].1.as_str(), &cell_ctx)),
        };
        proof {
            assert(want[k as int] == col_cell(tpl.row_tpls@[k as int].0, tpl.row_tpls@[k as int].1@, *rec, letter@));
            assert((cell.0, cell.1@) == want[k as int]);
        }
        let ghost before = cells@;
        cells.push(cell);
        proof {
            assert(row_cells_view(cells@) =~= row_cells_view(before).push((cell.0, cell.1@)));
            assert(row_cells_view(cells@) =~= want.subrange(0, k + 1));
        }
        k = k + 1;
    }
    proof {
        assert(want.subrange(0, want.len() as int) =~= want);
    }
    let col_id = stable_instance_row_id(tpl.template_col_id, path.as_str());
    ColInstance {
        col_id,
        dim_key_path: path,
        header,
        col_letter: letter,
        col_index: ci,
        cells,
        sort_no: idx as i32 + 1,
    }
}

/// Column expansion (the transpose of row floats): one instance column per record,
/// from `region_start_col` on, each with its letter as `{{c}}`.
pub fn expand_columns(tpl: &ColFloatTemplate, records: &[SourceRecord], region_start_col: i64) -> (r: Vec<
    ColInstance,
>)
    requires
        region_start_col + records@.len() < i64::MAX,
        records@.len() < i32::MAX,
    ensures
        r@.len() == records@.len(),
        forall|i: int|
            0 <= i < records@.len() ==> (#[trigger] r@[i])@ == col_instance(
                *tpl,
                records@[i],
                (region_start_col + i) as i64,
                i,
            ),
{
    let mut out: Vec<ColInstance> = Vec::new();
    let mut i: usize = 0;
    while i < records.len()
        invariant
            region_start_col + records@.len() < i64::MAX,
            records@.len() < i32::MAX,
            i <= records@.len(),
            out@.len() == i,
            forall|j: int|
                0 <= j < i ==> (#[trigger] out@[j])@ == col_instance(
                    *tpl,
                    records@[j],
                    (region_start_col + j) as i64,
                    j,
                ),
        decreases records@.len() - i,
    {
        let c = make_col(tpl, &records[i], region_start_col + i as i64, i);
        out.push(c);
        i = i + 1;
    }
    out
}

/// A column of a loaded layout: its id and its letter.
#[derive(Debug, Clone)]
pub struct ColInfo {
    pub id: Option<i64>,
    pub col_letter: Option<String>,
}

/// A cell mapping of a loaded layout: its row id, column id and formula.
#[derive(Debug, Clone)]
pub struct CellMapEntry {
    pub row_id: Option<i64>,
    pub col_id: Option<i64>,
    pub formula: Option<String>,
}

/// The letter of the first column with an id (None when that column has no letter).
pub open spec fn letter_of(cols: Seq<ColInfo>, id: i64) -> Option<Seq<char>>
    decreases cols.len(),
{
    if cols.len() == 0 {
        None
    } else if cols[0].id == Some(id) {
        match cols[0].col_letter {
            Some(l) => Some(l@),
            None => None,
        }
    } else {
        letter_of(cols.subrange(1, cols.len() as int), id)
    }
}

/// The formula templates of a template row: its cell mappings, in order, with a
/// non-empty formula and a column that has a letter.
pub open spec fn template_cells(tpl_id: i64, cols: Seq<ColInfo>, cm: Seq<CellMapEntry>) -> Seq<(Seq<char>, Seq<char>)>
    decreases cm.len(),
{
    if cm.len() == 0 {
        Seq::empty()
    } else {
        let rest = template_cells(tpl_id, cols, cm.drop_last());
        let m = cm.last();
        let f: Seq<char> = match m.formula {
            Some(x) => x@,
            None => Seq::empty(),
        };
        if m.row_id == Some(tpl_id) && f.len() > 0 && m.col_id is Some && letter_of(cols, m.col_id->0) is Some {
            rest.push((letter_of(cols, m.col_id->0)->0, f))
        } else {
            rest
        }
    }
}

fn find_letter(cols: &Vec<ColInfo>, id: i64) -> (r: Option<String>)
    ensures
        match letter_of(cols@, id) {
            Some(l) => r matches Some(x) && x@ == l,
            None => r is None,
        },
{
    let mut i: usize = 0;
    proof {
        assert(cols@.subrange(0, cols@.len() as int) =~= cols@);
    }
    while i < cols.len()
        invariant
            i <= cols@.len(),
            letter_of(cols@, id) == letter_of(cols@.subrange(i as int, cols@.len() as int), id),
        decreases cols@.len() - i,
    {
        let ghost rest = cols@.subrange(i as int, cols@.len() as int);
        proof {
            assert(rest[0] == cols@[i as int]);
            assert(rest.subrange(1, rest.len() as int) =~= cols@.subrange(i + 1, cols@.len() as int));
        }
        if cols[i].id == Some(id) {
            return match &cols[i].col_letter {
                Some(l) => Some(l.clone()),
                None => None,
            };
        }
        i = i + 1;
    }
    proof {
        assert(cols@.subrange(i as int, cols@.len() as int) =~= Seq::<ColInfo>::empty());
    }
    None
}

/// The float template of a template row: its id, its title template (`{{label}}`
/// when it has none), and the formulas of its cell mappings by column letter.
pub fn build_template(tpl_id: i64, name: Option<&str>, cols: &Vec<ColInfo>, cell_map: &Vec<CellMapEntry>) -> (r: FloatTemplate)
    ensures
        r.template_row_id == tpl_id,
        r.name_tpl@ == (match name {
            Some(n) => if n@.len() > 0 {
                n@
            } else {
                "{{label}}"@
            },
            None => "{{label}}"@,
        }),
        pairs_view(r.cell_tpls@) == template_cells(tpl_id, cols@, cell_map@),
{
    let name_tpl = match name {
        Some(n) => if n.is_empty() {
            copy_str("{{label}}")
        } else {
            copy_str(n)
        },
        None => copy_str("{{label}}"),
    };
    let mut cells: Vec<(String, String)> = Vec::new();
    let mut i: usize = 0;
    proof {
        assert(cell_map@.subrange(0, 0) =~= Seq::<CellMapEntry>::empty());
        assert(pairs_view(cells@) =~= Seq::<(Seq<char>, Seq<char>)>::empty());
    }
    while i < cell_map.len()
        invariant
            i <= cell_map@.len(),
            pairs_view(cells@) == template_cells(tpl_id, cols@, cell_map@.subrange(0, i as int)),
        decreases cell_map@.len() - i,
    {
        let m = &cell_map[i];
        proof {
            let nx = cell_map@.subrange(0, i + 1);
            assert(nx.drop_last() =~= cell_map@.subrange(0, i as int));
            assert(nx.last() == cell_map@[i as int]);
        }
        let ghost before = pairs_view(cells@);
        if m.row_id == Some(tpl_id) {
            if let Some(f) = &m.formula {
                if !f.as_str().is_empty() {
                    if let Some(cid) = m.col_id {
                        if let Some(letter) = find_letter(cols, cid) {
                            cells.push((letter, f.clone()));
                            proof {
                                assert(pairs_view(cells@) =~= before.push((letter_of(cols@, cid)->0, f@)));
                            }
                        }
                    }
                }
            }
        }
        i = i + 1;
    }
    proof {
        assert(cell_map@.subrange(0, cell_map@.len() as int) =~= cell_map@);
    }
    FloatTemplate { template_row_id: tpl_id, name_tpl, cell_tpls: cells }
}

/// The columns a grouped area totals: those of the template whose formula has no
/// `/` (ratios are not summed).
pub open spec fn rollup_columns(cells: Seq<(Seq<char>, Seq<char>)>) -> Seq<Seq<char>>
    decreases cells.len(),
{
    if cells.len() == 0 {
        Seq::empty()
    } else {
        let rest = rollup_columns(cells.drop_last());
        if crate::ops::contains_seq(cells.last().1, seq!['/']) {
            rest
        } else {
            rest.push(cells.last().0)
        }
    }
}

fn copy_pairs(v: &Vec<(String, String)>) -> (r: Vec<(String, String)>)
    ensures
        pairs_view(r@) == pairs_view(v@),
{
    let mut out: Vec<(String, String)> = Vec::new();
    let mut i: usize = 0;
    while i < v.len()
        invariant
            i <= v@.len(),
            out@.len() == i,
            forall|j: int| 0 <= j < i ==> (#[trigger] out@[j]).0@ == v@[j].0@ && out@[j].1@ == v@[j].1@,
        decreases v@.len() - i,
    {
        out.push((v[i].0.clone(), v[i].1.clone()));
        i = i + 1;
    }
    proof {
        assert(pairs_view(out@) =~= pairs_view(v@));
    }
    out
}

/// The grouped template of a flat one over some dimensions: one level per dimension
/// (outermost first), each with subtotals but the innermost, subtotals titled
/// `{{label}} 小计`, a grand total `合计` on top, and the non-ratio columns totalled.
pub fn hier_template_for(template: &FloatTemplate, dims: &Vec<String>) -> (r: HierTemplate)
    ensures
        r.leaf.template_row_id == template.template_row_id,
        r.leaf.name_tpl@ == template.name_tpl@,
        pairs_view(r.leaf.cell_tpls@) == pairs_view(template.cell_tpls@),
        r.levels@.len() == dims@.len(),
        forall|i: int|
            0 <= i < dims@.len() ==> {
                &&& (#[trigger] r.levels@[i]).dim@ == dims@[i]@
                &&& r.levels@[i].rollup@ == (if i + 1 == dims@.len() {
                    "none"@
                } else {
                    "subtotal"@
                })
                &&& r.levels@[i].subtotal_name_tpl@ == "{{label}} 小计"@
            },
        r.grand_total@ == "total"@,
        r.grand_total_name@ == "合计"@,
        r.rollup_cols@.map_values(|c: String| c@) == rollup_columns(pairs_view(template.cell_tpls@)),
{
    let mut rollup: Vec<String> = Vec::new();
    let mut i: usize = 0;
    let ghost cv = pairs_view(template.cell_tpls@);
    proof {
        assert(cv.subrange(0, 0) =~= Seq::<(Seq<char>, Seq<char>)>::empty());
        assert(rollup@.map_values(|c: String| c@) =~= Seq::<Seq<char>>::empty());
    }
    while i < template.cell_tpls.len()
        invariant
            i <= template.cell_tpls@.len(),
            cv == pairs_view(template.cell_tpls@),
            rollup@.map_values(|c: String| c@) == rollup_columns(cv.subrange(0, i as int)),
        decreases template.cell_tpls@.len() - i,
    {
        proof {
            let nx = cv.subrange(0, i + 1);
            assert(nx.drop_last() =~= cv.subrange(0, i as int));
            assert(nx.last() == (template.cell_tpls@[i as int].0@, template.cell_tpls@[i as int].1@));
        }
        let ghost before = rollup@.map_values(|c: String| c@);
        proof {
            reveal_strlit("/");
            assert("/"@ =~= seq!['/']);
        }
        if !crate::ops::str_contains(template.cell_tpls[i].1.as_str(), "/") {
            rollup.push(template.cell_tpls[i].0.clone());
            proof {
                reveal_strlit("/");
                assert(rollup@.map_values(|c: String| c@) =~= before.push(template.cell_tpls@[i as int].0@));
            }
        } else {
            proof {
                reveal_strlit("/");
            }
        }
        i = i + 1;
    }
    proof {
        assert(cv.subrange(0, template.cell_tpls@.len() as int) =~= cv);
    }
    let mut levels: Vec<HierLevel> = Vec::new();
    let mut j: usize = 0;
    while j < dims.len()
        invariant
            j <= dims@.len(),
            levels@.len() == j,
            forall|k: int|
                0 <= k < j ==> {
                    &&& (#[trigger] levels@[k]).dim@ == dims@[k]@
                    &&& levels@[k].rollup@ == (if k + 1 == dims@.len() {
                        "none"@
                    } else {
                        "subtotal"@
                    })
                    &&& levels@[k].subtotal_name_tpl@ == "{{label}} 小计"@
                },
        decreases dims@.len() - j,
    {
        let is_leaf = j + 1 == dims.len();
        levels.push(HierLevel {
            dim: dims[j].clone(),
            rollup: if is_leaf {
                copy_str("none")
            } else {
                copy_str("subtotal")
            },
            subtotal_name_tpl: copy_str("{{label}} 小计"),
        });
        j = j + 1;
    }
    let leaf = FloatTemplate {
        template_row_id: template.template_row_id,
        name_tpl: template.name_tpl.clone(),
        cell_tpls: copy_pairs(&template.cell_tpls),
    };
    HierTemplate { leaf, levels, grand_total: copy_str("total"), grand_total_name: copy_str("合计"), rollup_cols: rollup }
}

/// A grouped template built from a flat one over some dimensions (see
/// `hier_template_for`).
pub open spec fn is_hier_template_for(h: HierTemplate, template: FloatTemplate, dims: Seq<String>) -> bool {
    &&& h.leaf.template_row_id == template.template_row_id
    &&& h.leaf.name_tpl@ == template.name_tpl@
    &&& pairs_view(h.leaf.cell_tpls@) == pairs_view(template.cell_tpls@)
    &&& h.levels@.len() == dims.len()
    &&& forall|i: int|
        0 <= i < dims.len() ==> {
            &&& (#[trigger] h.levels@[i]).dim@ == dims[i]@
            &&& h.levels@[i].rollup@ == (if i + 1 == dims.len() {
                "none"@
            } else {
                "subtotal"@
            })
            &&& h.levels@[i].subtotal_name_tpl@ == "{{label}} 小计"@
        }
    &&& h.grand_total@ == "total"@
    &&& h.grand_total_name@ == "合计"@
    &&& h.rollup_cols@.map_values(|c: String| c@) == rollup_columns(pairs_view(template.cell_tpls@))
}

/// Expands the template row of a floating area: grouped by the dimensions its data
/// source declares (with subtotals and a grand total), else flat (one detail row
/// per record, `{{total}}` anchored at the area's total row). Also says whether it
/// grouped.
pub fn expand_area(
    template: &FloatTemplate,
    records: &[SourceRecord],
    data_source: &str,
    start_row: i64,
    total_row: Option<i64>,
) -> (r: (Vec<InstanceRow>, bool))
    requires
        start_row + 2 * records@.len() + 2 <= i64::MAX,
        2 * records@.len() + 2 < i32::MAX,
    ensures
        r.1 == crate::store::hier_dims_spec(data_source@) is Some,
        crate::store::hier_dims_spec(data_source@) is Some ==> exists|dims: Seq<String>, h: HierTemplate|
            #![trigger is_hier_template_for(h, *template, dims)]
            dims.map_values(|d: String| d@) == crate::store::hier_dims_spec(data_source@)->0
                && is_hier_template_for(h, *template, dims) && rows_view(r.0@) == hier_spec(h, records@, start_row as int),
        crate::store::hier_dims_spec(data_source@) is None ==> r.0@.len() == records@.len() && forall|i: int|
            0 <= i < records@.len() ==> (#[trigger] r.0@[i])@ == detail_row(
                template.template_row_id,
                template.name_tpl@,
                pairs_view(template.cell_tpls@),
                records@[i],
                (start_row + i) as i64,
                (i + 1) as i32,
                total_row,
                None,
                1,
            ),
{
    match crate::store::parse_hier_dims(data_source) {
        Some(dims) => {
            let h = hier_template_for(template, &dims);
            proof {
                assert(is_hier_template_for(h, *template, dims@));
            }
            (expand_hierarchy(&h, records, start_row), true)
        },
        None => (expand_template(template, records, start_row, total_row), false),
    }
}

// ----------------------------------------------------------------------------
// The template column of a column area
// ----------------------------------------------------------------------------
/// A column of a loaded layout, with what a column area reads of it.
#[derive(Debug, Clone)]
pub struct LayoutCol {
    pub id: Option<i64>,
    pub name: Option<String>,
    pub region_code: Option<String>,
    pub sheet_code: Option<String>,
    pub col_type: Option<String>,
    pub col_no: Option<i64>,
}

/// A cell mapping of a loaded layout, with its cell reference.
#[derive(Debug, Clone)]
pub struct ColCellMap {
    pub col_id: Option<i64>,
    pub formula: Option<String>,
    pub cell_ref: Option<String>,
}

pub open spec fn opt_text_is(o: Option<String>, t: Seq<char>) -> bool {
    o matches Some(x) && x@ == t
}

/// The float column of an area of a sheet.
pub open spec fn is_area_float_col(c: LayoutCol, region: Seq<char>, sheet: Seq<char>) -> bool {
    opt_text_is(c.region_code, region) && opt_text_is(c.sheet_code, sheet) && opt_text_is(c.col_type, "float"@)
}

/// The first float column of an area.
pub open spec fn first_float_col(cols: Seq<LayoutCol>, region: Seq<char>, sheet: Seq<char>) -> Option<int>
    decreases cols.len(),
{
    if cols.len() == 0 {
        None
    } else if is_area_float_col(cols[0], region, sheet) {
        Some(0)
    } else {
        match first_float_col(cols.drop_first(), region, sheet) {
            Some(i) => Some(i + 1),
            None => None,
        }
    }
}

/// The row number of a cell reference: what follows its leading letters, read as an
/// `i64` (0 where that fails).
pub open spec fn ref_row(r: Seq<char>) -> i64 {
    match i64_of_text(r.subrange(alpha_run(r) as int, r.len() as int)) {
        Some(n) => n,
        None => 0,
    }
}

/// The formulas of a template column, with their rows, in mapping order: mappings of
/// that column with a formula and a positive row number.
pub open spec fn col_rows(cm: Seq<ColCellMap>, id: i64) -> Seq<(i64, Seq<char>)>
    decreases cm.len(),
{
    if cm.len() == 0 {
        Seq::empty()
    } else {
        let m = cm.last();
        let prev = col_rows(cm.drop_last(), id);
        let f = match m.formula {
            Some(x) => x@,
            None => Seq::empty(),
        };
        let row = match m.cell_ref {
            Some(r) => ref_row(r@),
            None => 0,
        };
        if m.col_id == Some(id) && f.len() > 0 && row > 0 {
            prev.push((row, f))
        } else {
            prev
        }
    }
}

/// The entries of a row.
pub open spec fn keep_row(s: Seq<(i64, Seq<char>)>, k: i64) -> Seq<(i64, Seq<char>)>
    decreases s.len(),
{
    if s.len() == 0 {
        s
    } else if s.last().0 == k {
        keep_row(s.drop_last(), k).push(s.last())
    } else {
        keep_row(s.drop_last(), k)
    }
}

/// `out` is `inp` sorted by row, entries of one row in their order in `inp` (what a
/// stable sort by row gives).
pub open spec fn stable_by_row(out: Seq<(i64, Seq<char>)>, inp: Seq<(i64, Seq<char>)>) -> bool {
    &&& forall|i: int, j: int| 0 <= i < j < out.len() ==> out[i].0 <= out[j].0
    &&& forall|k: i64| #[trigger] keep_row(out, k) == keep_row(inp, k)
}

pub open spec fn row_tpls_view(v: Seq<(i64, String)>) -> Seq<(i64, Seq<char>)> {
    v.map_values(|t: (i64, String)| (t.0, t.1@))
}

proof fn lemma_keep_row_add(a: Seq<(i64, Seq<char>)>, b: Seq<(i64, Seq<char>)>, k: i64)
    ensures
        keep_row(a + b, k) == keep_row(a, k) + keep_row(b, k),
    decreases b.len(),
{
    if b.len() == 0 {
        assert(a + b =~= a);
        assert(keep_row(a, k) + keep_row(b, k) =~= keep_row(a, k));
    } else {
        assert((a + b).drop_last() =~= a + b.drop_last());
        assert((a + b).last() == b.last());
        lemma_keep_row_add(a, b.drop_last(), k);
        if b.last().0 == k {
            assert(keep_row(a, k) + keep_row(b, k) =~= (keep_row(a, k) + keep_row(b.drop_last(), k)).push(b.last()));
        }
    }
}

proof fn lemma_keep_row_none(s: Seq<(i64, Seq<char>)>, k: i64)
    requires
        forall|i: int| 0 <= i < s.len() ==> (#[trigger] s[i]).0 != k,
    ensures
        keep_row(s, k) == Seq::<(i64, Seq<char>)>::empty(),
    decreases s.len(),
{
    if s.len() > 0 {
        assert(s.last() == s[s.len() - 1]);
        lemma_keep_row_none(s.drop_last(), k);
    }
}

/// Inserts an entry after every entry of the same or a smaller row.
fn insert_by_row(v: &mut Vec<(i64, String)>, row: i64, f: String)
    requires
        forall|i: int, j: int| 0 <= i < j < old(v)@.len() ==> old(v)@[i].0 <= old(v)@[j].0,
    ensures
        forall|i: int, j: int| 0 <= i < j < final(v)@.len() ==> final(v)@[i].0 <= final(v)@[j].0,
        forall|k: i64| #[trigger] keep_row(row_tpls_view(final(v)@), k) == (if k == row {
            keep_row(row_tpls_view(old(v)@), k).push((row, f@))
        } else {
            keep_row(row_tpls_view(old(v)@), k)
        }),
{
    let ghost o = row_tpls_view(v@);
    let mut p: usize = 0;
    while p < v.len() && v[p].0 <= row
        invariant
            p <= v@.len(),
            o == row_tpls_view(v@),
            forall|i: int, j: int| 0 <= i < j < v@.len() ==> v@[i].0 <= v@[j].0,
            forall|i: int| 0 <= i < p ==> (#[trigger] v@[i]).0 <= row,
        decreases v@.len() - p,
    {
        p = p + 1;
    }
    let ghost fv = f@;
    v.insert(p, (row, f));
    proof {
        let n = row_tpls_view(v@);
        let a = o.subrange(0, p as int);
        let b = o.subrange(p as int, o.len() as int);
        assert(o =~= a + b);
        assert(n =~= a + seq![(row, fv)] + b);
        assert forall|i: int| 0 <= i < b.len() implies (#[trigger] b[i]).0 > row by {
            assert(b[i] == o[p + i]);
            assert(o[p as int].0 > row);
            assert(v@[p + i + 1].0 >= v@[p + 1].0 || i == 0);
        }
        assert forall|k: i64| #[trigger] keep_row(n, k) == (if k == row {
            keep_row(o, k).push((row, fv))
        } else {
            keep_row(o, k)
        }) by {
            lemma_keep_row_add(a + seq![(row, fv)], b, k);
            lemma_keep_row_add(a, seq![(row, fv)], k);
            lemma_keep_row_add(a, b, k);
            let one = seq![(row, fv)];
            assert(one.drop_last() =~= Seq::<(i64, Seq<char>)>::empty());
            assert(keep_row(one.drop_last(), k) =~= Seq::<(i64, Seq<char>)>::empty());
            assert(one.last() == (row, fv));
            if k == row {
                assert(keep_row(one, k) =~= seq![(row, fv)]);
            } else {
                assert(keep_row(one, k) =~= Seq::<(i64, Seq<char>)>::empty());
            }
            if k == row {
                lemma_keep_row_none(b, k);
                assert(keep_row(a, k) + keep_row(seq![(row, fv)], k) + Seq::<(i64, Seq<char>)>::empty() =~= keep_row(a, k).push((row, fv)));
                assert(keep_row(a, k) + Seq::<(i64, Seq<char>)>::empty() =~= keep_row(a, k));
            } else {
                assert(keep_row(a, k) + keep_row(seq![(row, fv)], k) =~= keep_row(a, k));
            }
        }
        assert forall|i: int, j: int| 0 <= i < j < v@.len() implies v@[i].0 <= v@[j].0 by {
            if j < p {
                assert(v@[i] == old(v)@[i] && v@[j] == old(v)@[j]);
            } else if j == p {
                assert(v@[i] == old(v)@[i]);
            } else if i < p {
                assert(v@[i] == old(v)@[i] && v@[j] == old(v)@[j - 1]);
            } else if i == p {
                assert(v@[j] == old(v)@[j - 1]);
                assert(old(v)@[p as int].0 > row);
            } else {
                assert(v@[i] == old(v)@[i - 1] && v@[j] == old(v)@[j - 1]);
            }
        }
    }
}

/// The row number a cell reference gives (0 where none can be read).
fn row_of_cell_ref(r: &str) -> (n: i64)
    ensures
        n == ref_row(r@),
{
    let cs = chars_of(r);
    let mut i: usize = 0;
    while i < cs.len() && (('a' <= cs[i] && cs[i] <= 'z') || ('A' <= cs[i] && cs[i] <= 'Z'))
        invariant
            i <= cs@.len(),
            cs@ == r@,
            forall|j: int| 0 <= j < i ==> is_alpha(#[trigger] cs@[j]),
        decreases cs@.len() - i,
    {
        i = i + 1;
    }
    proof {
        lemma_alpha_run(r@);
        if (i as int) < alpha_run(r@) {
            assert(is_alpha(r@[i as int]));
        }
        if (i as int) > alpha_run(r@) {
            assert(is_alpha(cs@[alpha_run(r@) as int]));
        }
    }
    let tail = tail_string(&cs, i);
    match parse_i64(tail.as_str()) {
        Some(n) => n,
        None => 0,
    }
}

/// The template column of a column area: the area's first float column (none: no
/// column area), its id (0 when it has none), its header template (`{{label}}` when
/// it has no name), its row formulas sorted by row (see `col_rows`), and the column
/// index to expand from (its own number, else `start_col`, at least 0).
pub fn col_template(
    cols: &[LayoutCol],
    cell_map: &[ColCellMap],
    region_code: &str,
    sheet_code: &str,
    start_col: i64,
) -> (r: Option<(ColFloatTemplate, i64)>)
    ensures
        match first_float_col(cols@, region_code@, sheet_code@) {
            None => r is None,
            Some(i) => r matches Some(x) && {
                let c = cols@[i];
                let id = match c.id {
                    Some(v) => v,
                    None => 0,
                };
                &&& x.0.template_col_id == id
                &&& x.0.header_tpl@ == (match c.name {
                    Some(n) => if n@.len() > 0 {
                        n@
                    } else {
                        "{{label}}"@
                    },
                    None => "{{label}}"@,
                })
                &&& stable_by_row(row_tpls_view(x.0.row_tpls@), col_rows(cell_map@, id))
                &&& x.1 == (match c.col_no {
                    Some(n) => n,
                    None => if start_col > 0 {
                        start_col
                    } else {
                        0
                    },
                })
            },
        },
{
    let mut i: usize = 0;
    proof {
        assert(cols@.subrange(0, cols@.len() as int) =~= cols@);
    }
    let mut found: Option<usize> = None;
    while found.is_none() && i < cols.len()
        invariant
            i <= cols@.len(),
            found is None ==> first_float_col(cols@, region_code@, sheet_code@) == match first_float_col(cols@.subrange(i as int, cols@.len() as int), region_code@, sheet_code@) {
                Some(j) => Some(j + i),
                None => None,
            },
            found matches Some(k) ==> k < cols@.len() && first_float_col(cols@, region_code@, sheet_code@) == Some(k as int),
        decreases cols@.len() - i, (if found is None { 1int } else { 0int }),
    {
        let c = &cols[i];
        let ghost rest = cols@.subrange(i as int, cols@.len() as int);
        proof {
            assert(rest[0] == cols@[i as int]);
            assert(rest.drop_first() =~= cols@.subrange(i + 1, cols@.len() as int));
        }
        let hit = match (&c.region_code, &c.sheet_code, &c.col_type) {
            (Some(rc), Some(sc), Some(ct)) => str_eq(rc.as_str(), region_code) && str_eq(sc.as_str(), sheet_code)
                && str_eq(ct.as_str(), "float"),
            _ => false,
        };
        assert(hit == is_area_float_col(cols@[i as int], region_code@, sheet_code@));
        if hit {
            found = Some(i);
        } else {
            i = i + 1;
        }
    }
    let k = match found {
        Some(k) => k,
        None => {
            proof {
                assert(cols@.subrange(i as int, cols@.len() as int) =~= Seq::<LayoutCol>::empty());
            }
            return None;
        },
    };
    let c = &cols[k];
    let id: i64 = match c.id {
        Some(v) => v,
        None => 0,
    };
    let header = match &c.name {
        Some(n) => if n.as_str().is_empty() {
            copy_str("{{label}}")
        } else {
            copy_str(n.as_str())
        },
        None => copy_str("{{label}}"),
    };
    let mut rows: Vec<(i64, String)> = Vec::new();
    let mut j: usize = 0;
    proof {
        assert(cell_map@.subrange(0, 0) =~= Seq::<ColCellMap>::empty());
        assert(row_tpls_view(rows@) =~= Seq::<(i64, Seq<char>)>::empty());
    }
    while j < cell_map.len()
        invariant
            j <= cell_map@.len(),
            forall|a: int, b: int| 0 <= a < b < rows@.len() ==> rows@[a].0 <= rows@[b].0,
            forall|kk: i64| #[trigger] keep_row(row_tpls_view(rows@), kk) == keep_row(col_rows(cell_map@.subrange(0, j as int), id), kk),
        decreases cell_map@.len() - j,
    {
        let ghost pre = cell_map@.subrange(0, j as int);
        let ghost nxt = cell_map@.subrange(0, j + 1);
        proof {
            assert(nxt.drop_last() =~= pre);
            assert(nxt.last() == cell_map@[j as int]);
        }
        let m = &cell_map[j];
        let f: &str = match &m.formula {
            Some(x) => x.as_str(),
            None => "",
        };
        let row: i64 = match &m.cell_ref {
            Some(r) => row_of_cell_ref(r.as_str()),
            None => 0,
        };
        proof {
            reveal_strlit("");
            assert(nxt.last() == *m);
            assert(f@ == match m.formula {
                Some(x) => x@,
                None => Seq::<char>::empty(),
            });
            assert(row == match m.cell_ref {
                Some(r) => ref_row(r@),
                None => 0,
            });
        }
        let same_col = match m.col_id {
            Some(c2) => c2 == id,
            None => false,
        };
        assert(same_col == (m.col_id == Some(id)));
        if same_col && !f.is_empty() && row > 0 {
            proof {
                assert(f@.len() > 0);
            }
            insert_by_row(&mut rows, row, copy_str(f));
            proof {
                assert forall|kk: i64| #[trigger] keep_row(row_tpls_view(rows@), kk) == keep_row(col_rows(nxt, id), kk) by {
                    assert(col_rows(nxt, id) == col_rows(pre, id).push((row, f@)));
                    assert(col_rows(nxt, id).drop_last() =~= col_rows(pre, id));
                }
            }
        } else {
            proof {
                if same_col && row > 0 {
                    assert(f@.len() == 0) by {
                        if f@.len() > 0 {
                            assert(!f.is_empty());
                        }
                    }
                }
                assert(col_rows(nxt, id) == col_rows(pre, id));
            }
        }
        j = j + 1;
    }
    proof {
        assert(cell_map@.subrange(0, cell_map@.len() as int) =~= cell_map@);
    }
    let ci = match c.col_no {
        Some(n) => n,
        None => if start_col > 0 {
            start_col
        } else {
            0
        },
    };
    Some((ColFloatTemplate { template_col_id: id, header_tpl: header, row_tpls: rows }, ci))
}


// ----------------------------------------------------------------------------
// Choosing what a floating area expands
// ----------------------------------------------------------------------------
/// A region of a report as read: whether it repeats (floats), its codes and its
/// start row.
pub struct RegionIn {
    pub is_repeatable: Option<i64>,
    pub region_code: Option<String>,
    pub sheet_code: Option<String>,
    pub start_row: Option<i64>,
}

/// A design row as read: its region and sheet, its type and its 0-based row number.
pub struct RowIn {
    pub region_code: Option<String>,
    pub sheet_code: Option<String>,
    pub row_type: Option<String>,
    pub row_no: Option<i64>,
}

/// A region floats when it is marked repeatable with 1.
pub fn is_float_region(r: &RegionIn) -> (b: bool)
    ensures
        b == (r.is_repeatable == Some(1i64)),
{
    match r.is_repeatable {
        Some(v) => v == 1,
        None => false,
    }
}

/// A text field equals `want` (a missing field equals nothing).
pub open spec fn field_is(f: Option<String>, want: Seq<char>) -> bool {
    match f {
        Some(x) => x@ == want,
        None => false,
    }
}

/// The row is of `row_type` and lies in region `region` of sheet `sheet`.
pub open spec fn row_matches(r: RowIn, region: Seq<char>, sheet: Seq<char>, row_type: Seq<char>) -> bool {
    field_is(r.region_code, region) && field_is(r.sheet_code, sheet) && field_is(r.row_type, row_type)
}

/// The first row of a type in a region of a sheet.
pub open spec fn first_row_of(rows: Seq<RowIn>, region: Seq<char>, sheet: Seq<char>, row_type: Seq<char>) -> Option<int>
    decreases rows.len(),
{
    if rows.len() == 0 {
        None
    } else if row_matches(rows[0], region, sheet, row_type) {
        Some(0)
    } else {
        match first_row_of(rows.drop_first(), region, sheet, row_type) {
            Some(i) => Some(i + 1),
            None => None,
        }
    }
}

fn field_eq(f: &Option<String>, want: &str) -> (b: bool)
    ensures
        b == field_is(*f, want@),
{
    match f {
        Some(x) => str_eq(x.as_str(), want),
        None => false,
    }
}

/// The position of the first row of a type (`float` for the template row, `total`
/// for the total row) in a region of a sheet.
pub fn find_row_of(rows: &Vec<RowIn>, region: &str, sheet: &str, row_type: &str) -> (r: Option<usize>)
    ensures
        match first_row_of(rows@, region@, sheet@, row_type@) {
            Some(i) => r matches Some(x) && x as int == i,
            None => r is None,
        },
{
    let mut i: usize = 0;
    assert(rows@.skip(0) =~= rows@);
    while i < rows.len()
        invariant
            i <= rows@.len(),
            match first_row_of(rows@, region@, sheet@, row_type@) {
                Some(j) => match first_row_of(rows@.skip(i as int), region@, sheet@, row_type@) {
                    Some(k) => j == k + i,
                    None => false,
                },
                None => first_row_of(rows@.skip(i as int), region@, sheet@, row_type@) is None,
            },
        decreases rows@.len() - i,
    {
        assert(rows@.skip(i as int)[0] == rows@[i as int]);
        assert(rows@.skip(i as int).drop_first() =~= rows@.skip(i + 1));
        let r = &rows[i];
        if field_eq(&r.region_code, region) && field_eq(&r.sheet_code, sheet) && field_eq(&r.row_type, row_type) {
            return Some(i);
        }
        i = i + 1;
    }
    None
}

/// The physical (1-based) row a floating area expands from: its template row's row
/// number plus one, or, without one, the region's start row but at least 1.
pub open spec fn template_phys_spec(row_no: Option<i64>, start_row: Option<i64>) -> int {
    match row_no {
        Some(n) => n + 1,
        None => {
            let s: int = match start_row {
                Some(x) => x as int,
                None => 0,
            };
            if s > 1 {
                s
            } else {
                1
            }
        },
    }
}

/// See `template_phys_spec`.
pub fn template_phys_row(row_no: Option<i64>, start_row: Option<i64>) -> (r: i64)
    requires
        row_no matches Some(n) ==> n < i64::MAX,
    ensures
        r == template_phys_spec(row_no, start_row),
{
    match row_no {
        Some(n) => n + 1,
        None => {
            let s = match start_row {
                Some(x) => x,
                None => 0,
            };
            if s > 1 {
                s
            } else {
                1
            }
        },
    }
}

/// The physical row of a flat area's total row: the first total row of the region
/// (its row number plus one), none when there is none or it has no row number.
pub open spec fn total_phys_spec(rows: Seq<RowIn>, region: Seq<char>, sheet: Seq<char>) -> Option<int> {
    match first_row_of(rows, region, sheet, "total"@) {
        Some(i) => match rows[i].row_no {
            Some(n) => Some(n + 1),
            None => None,
        },
        None => None,
    }
}

/// See `total_phys_spec`.
pub fn total_row_phys(rows: &Vec<RowIn>, region: &str, sheet: &str) -> (r: Option<i64>)
    requires
        forall|i: int| 0 <= i < rows@.len() ==> ((#[trigger] rows@[i]).row_no matches Some(n) ==> n < i64::MAX),
    ensures
        match total_phys_spec(rows@, region@, sheet@) {
            Some(v) => r == Some(v as i64),
            None => r is None,
        },
{
    proof {
        lemma_first_row_range(rows@, region@, sheet@, "total"@);
    }
    let t = "total";
    assert(t@ == "total"@);
    match find_row_of(rows, region, sheet, t) {
        Some(i) => {
            assert(first_row_of(rows@, region@, sheet@, "total"@) == Some(i as int));
            match rows[i].row_no {
                Some(n) => {
                    assert(rows@[i as int].row_no == Some(n));
                    Some(n + 1)
                },
                None => None,
            }
        },
        None => None,
    }
}

proof fn lemma_first_row_range(rows: Seq<RowIn>, region: Seq<char>, sheet: Seq<char>, row_type: Seq<char>)
    ensures
        first_row_of(rows, region, sheet, row_type) matches Some(i) ==> 0 <= i < rows.len(),
    decreases rows.len(),
{
    if rows.len() > 0 {
        lemma_first_row_range(rows.drop_first(), region, sheet, row_type);
    }
}

/// Stored floating rows take precedence: they are expanded when there are any, else
/// the records of the live data source.
pub fn use_stored_records(stored: &Vec<SourceRecord>) -> (b: bool)
    ensures
        b == (stored@.len() > 0),
{
    stored.len() > 0
}

} // verus!
