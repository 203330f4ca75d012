//! Small rules of the report store: column letters, floating-area data-source
//! settings, and the stable ids of source bindings.
use vstd::prelude::*;
use crate::expand::{trim_spec, trim_chars, fnv_fold, fnv1a64, SourceRecord};
use crate::grid::{col_text, col_to_letters};
use crate::text::{
    chars_of, copy_str, lower_seq, lower_string, split_spec, split_str, has_prefix, starts_with, push_char,
    append_str, char_from_ascii,
};

verus! {

/// The letters of a 0-based column index (0 → A, 26 → AA): the fallback when a
/// column has no code.
pub fn col_letter_of(idx: usize) -> (r: String)
    requires
        idx < 0x7fff_ffff_ffff_ffff,
    ensures
        r@ == col_text(idx as int),
{
    col_to_letters(idx as i64)
}

/// Whether a floating area runs down rows or across columns.
#[derive(Clone, Copy, Debug, PartialEq, Eq, Structural)]
pub enum FloatKind {
    Row,
    Col,
}

impl FloatKind {
    /// The table that stores floating rows or columns.
    pub fn table(self) -> (r: &'static str)
        ensures
            r@ == (match self {
                FloatKind::Row => "cr_report_float_row"@,
                FloatKind::Col => "cr_report_float_col"@,
            }),
    {
        match self {
            FloatKind::Row => "cr_report_float_row",
            FloatKind::Col => "cr_report_float_col",
        }
    }

    /// The name of the type field and its default value.
    pub fn type_field(self) -> (r: (&'static str, &'static str))
        ensures
            r.0@ == (match self {
                FloatKind::Row => "row_type"@,
                FloatKind::Col => "col_type"@,
            }),
            r.1@ == (match self {
                FloatKind::Row => "detail"@,
                FloatKind::Col => "data"@,
            }),
    {
        match self {
            FloatKind::Row => ("row_type", "detail"),
            FloatKind::Col => ("col_type", "data"),
        }
    }
}

/// Equal up to ASCII case (`str::eq_ignore_ascii_case`).
pub open spec fn same_ignoring_case(a: Seq<char>, b: Seq<char>) -> bool {
    lower_seq(a) == lower_seq(b)
}

fn ieq(a: &str, b: &str) -> (r: bool)
    ensures
        r == same_ignoring_case(a@, b@),
{
    let x = lower_string(a);
    let y = lower_string(b);
    crate::text::str_eq(x.as_str(), y.as_str())
}

fn trim_str(s: &str) -> (r: String)
    ensures
        r@ == trim_spec(s@),
{
    let cs = chars_of(s);
    trim_chars(&cs)
}

/// Whether some `;`-separated setting of a data source, trimmed, reads `axis=col`.
pub open spec fn has_axis_col(segs: Seq<Seq<char>>) -> bool {
    exists|i: int| 0 <= i < segs.len() && same_ignoring_case(trim_spec(#[trigger] segs[i]), "axis=col"@)
}

/// Whether a data source lays its records out across columns: `sample-cols`, or a
/// setting `axis=col` (case aside, blanks trimmed).
pub open spec fn is_col_float_spec(ds: Seq<char>) -> bool {
    let spec = trim_spec(ds);
    same_ignoring_case(spec, "sample-cols"@) || has_axis_col(split_spec(spec, ';'))
}

/// Whether a data source lays its records out across columns.
pub fn is_col_float(data_source: &str) -> (r: bool)
    ensures
        r == is_col_float_spec(data_source@),
{
    let spec = trim_str(data_source);
    if ieq(spec.as_str(), "sample-cols") {
        return true;
    }
    let segs = split_str(spec.as_str(), ';');
    let ghost sv = segs@.map_values(|x: String| x@);
    let mut i: usize = 0;
    while i < segs.len()
        invariant
            i <= segs@.len(),
            sv == segs@.map_values(|x: String| x@),
            sv == split_spec(trim_spec(data_source@), ';'),
            forall|j: int| 0 <= j < i ==> !same_ignoring_case(trim_spec(#[trigger] sv[j]), "axis=col"@),
        decreases segs@.len() - i,
    {
        let t = trim_str(segs[i].as_str());
        if ieq(t.as_str(), "axis=col") {
            proof {
                assert(sv[i as int] == segs@[i as int]@);
                assert(same_ignoring_case(trim_spec(sv[i as int]), "axis=col"@));
            }
            return true;
        }
        i = i + 1;
    }
    false
}

/// The non-empty pieces, trimmed.
pub open spec fn trimmed_nonempty(ps: Seq<Seq<char>>) -> Seq<Seq<char>>
    decreases ps.len(),
{
    if ps.len() == 0 {
        Seq::empty()
    } else {
        let rest = trimmed_nonempty(ps.drop_last());
        let t = trim_spec(ps.last());
        if t.len() > 0 {
            rest.push(t)
        } else {
            rest
        }
    }
}

/// The dimensions declared by the first setting `hier=d1,d2,...` that names any.
pub open spec fn hier_from(segs: Seq<Seq<char>>) -> Option<Seq<Seq<char>>>
    decreases segs.len(),
{
    if segs.len() == 0 {
        None
    } else {
        let t = trim_spec(segs[0]);
        let dims = trimmed_nonempty(split_spec(t.subrange(5, t.len() as int), ','));
        if has_prefix(t, "hier="@) && dims.len() > 0 {
            Some(dims)
        } else {
            hier_from(segs.subrange(1, segs.len() as int))
        }
    }
}

/// The ordered dimensions of a grouped (hierarchical) floating area: `sample-hier`
/// groups by region then customer; `...;hier=d1,d2` names them; None otherwise.
pub open spec fn hier_dims_spec(ds: Seq<char>) -> Option<Seq<Seq<char>>> {
    let spec = trim_spec(ds);
    if same_ignoring_case(spec, "sample-hier"@) {
        Some(seq!["region"@, "cust_code"@])
    } else {
        hier_from(split_spec(spec, ';'))
    }
}

fn suffix_from(s: &str, k: usize) -> (r: String)
    requires
        k <= s@.len(),
    ensures
        r@ == s@.subrange(k as int, s@.len() as int),
{
    let cs = chars_of(s);
    let mut out = String::new();
    let mut i: usize = k;
    proof {
        assert(out@ =~= s@.subrange(k as int, k as int));
    }
    while i < cs.len()
        invariant
            k <= i <= cs@.len(),
            cs@ == s@,
            out@ == s@.subrange(k as int, i as int),
        decreases cs@.len() - i,
    {
        push_char(&mut out, cs[i]);
        i = i + 1;
        proof {
            assert(out@ =~= s@.subrange(k as int, i as int));
        }
    }
    out
}

fn trimmed_pieces(s: &str) -> (r: Vec<String>)
    ensures
        r@.map_values(|x: String| x@) == trimmed_nonempty(split_spec(s@, ',')),
{
    let parts = split_str(s, ',');
    let ghost pv = parts@.map_values(|x: String| x@);
    let mut out: Vec<String> = Vec::new();
    let mut i: usize = 0;
    proof {
        assert(pv.subrange(0, 0) =~= Seq::<Seq<char>>::empty());
        assert(out@.map_values(|x: String| x@) =~= Seq::<Seq<char>>::empty());
    }
    while i < parts.len()
        invariant
            i <= parts@.len(),
            pv == parts@.map_values(|x: String| x@),
            out@.map_values(|x: String| x@) == trimmed_nonempty(pv.subrange(0, i as int)),
        decreases parts@.len() - i,
    {
        let ghost before = out@.map_values(|x: String| x@);
        proof {
            let nx = pv.subrange(0, i + 1);
            assert(nx.drop_last() =~= pv.subrange(0, i as int));
            assert(nx.last() == parts@[i as int]@);
        }
        let t = trim_str(parts[i].as_str());
        if !t.as_str().is_empty() {
            out.push(t);
            proof {
                assert(out@.map_values(|x: String| x@) =~= before.push(trim_spec(parts@[i as int]@)));
            }
        }
        i = i + 1;
    }
    proof {
        assert(pv.subrange(0, parts@.len() as int) =~= pv);
    }
    out
}

/// The ordered dimensions of a grouped floating area (see `hier_dims_spec`).
pub fn parse_hier_dims(data_source: &str) -> (r: Option<Vec<String>>)
    ensures
        match hier_dims_spec(data_source@) {
            Some(d) => r matches Some(v) && v@.map_values(|x: String| x@) == d,
            None => r is None,
        },
{
    let spec = trim_str(data_source);
    if ieq(spec.as_str(), "sample-hier") {
        let mut v: Vec<String> = Vec::new();
        v.push(copy_str("region"));
        v.push(copy_str("cust_code"));
        proof {
            assert(v@.map_values(|x: String| x@) =~= seq!["region"@, "cust_code"@]);
        }
        return Some(v);
    }
    let segs = split_str(spec.as_str(), ';');
    let ghost sv = segs@.map_values(|x: String| x@);
    let mut i: usize = 0;
    proof {
        assert(sv.subrange(0, sv.len() as int) =~= sv);
    }
    while i < segs.len()
        invariant
            i <= segs@.len(),
            sv == segs@.map_values(|x: String| x@),
            sv == split_spec(trim_spec(data_source@), ';'),
            !same_ignoring_case(trim_spec(data_source@), "sample-hier"@),
            hier_from(sv) == hier_from(sv.subrange(i as int, sv.len() as int)),
        decreases segs@.len() - i,
    {
        let ghost rest = sv.subrange(i as int, sv.len() as int);
        proof {
            assert(rest[0] == segs@[i as int]@);
            assert(rest.subrange(1, rest.len() as int) =~= sv.subrange(i + 1, sv.len() as int));
        }
        let t = trim_str(segs[i].as_str());
        if starts_with(t.as_str(), "hier=") {
            proof {
                reveal_strlit("hier=");
            }
            let tail = suffix_from(t.as_str(), 5);
            let dims = trimmed_pieces(tail.as_str());
            if dims.len() > 0 {
                return Some(dims);
            }
        }
        i = i + 1;
    }
    proof {
        assert(sv.subrange(i as int, sv.len() as int) =~= Seq::<Seq<char>>::empty());
    }
    None
}

/// 16 to the power `n`.
pub open spec fn pow16(n: nat) -> int
    decreases n,
{
    if n == 0 {
        1
    } else {
        16 * pow16((n - 1) as nat)
    }
}

/// The lower-case hex digit of a value below 16.
pub open spec fn hex_char(d: int) -> char {
    if d < 10 {
        (48 + d) as char
    } else {
        (87 + d) as char
    }
}

/// A 64-bit value as 16 lower-case hex digits (`{:016x}`).
pub open spec fn hex16(h: u64) -> Seq<char> {
    Seq::new(16, |i: int| hex_char(((h as int) / pow16((15 - i) as nat)) % 16))
}

/// The text a binding id is hashed from: `"{source key}|{org or __default__}"`.
pub open spec fn binding_seed(source_key: Seq<char>, org: Option<Seq<char>>) -> Seq<char> {
    source_key + seq!['|'] + match org {
        Some(o) => o,
        None => "__default__"@,
    }
}

/// The id of a source binding: `rsb_` and the FNV-1a hash of its seed in hex.
pub open spec fn binding_id_spec(source_key: Seq<char>, org: Option<Seq<char>>) -> Seq<char> {
    "rsb_"@ + hex16(fnv_fold(vstd::utf8::encode_utf8(binding_seed(source_key, org))))
}

proof fn lemma_pow16_step(k: nat)
    requires
        k < 15,
    ensures
        pow16((15 - k) as nat) / 16 == pow16((15 - k - 1) as nat),
        pow16((15 - k) as nat) > 0,
{
    lemma_pow16_pos((15 - k - 1) as nat);
    let x = pow16((15 - k - 1) as nat);
    assert(pow16((15 - k) as nat) == 16 * x);
    assert((16 * x) / 16 == x) by (nonlinear_arith);
}

proof fn lemma_pow16_pos(n: nat)
    ensures
        pow16(n) > 0,
    decreases n,
{
    if n > 0 {
        lemma_pow16_pos((n - 1) as nat);
    }
}

pub fn hex_text(h: u64) -> (r: String)
    ensures
        r@ == hex16(h),
{
    let mut out = String::new();
    let mut p: u64 = 1152921504606846976;
    let mut k: usize = 0;
    proof {
        assert(pow16(15) == 1152921504606846976) by {
            reveal_with_fuel(pow16, 16);
        }
    }
    while k < 16
        invariant
            k <= 16,
            k < 16 ==> p as int == pow16((15 - k) as nat),
            out@.len() == k,
            forall|i: int| 0 <= i < k ==> #[trigger] out@[i] == hex16(h)[i],
        decreases 16 - k,
    {
        proof {
            lemma_pow16_pos((15 - k) as nat);
        }
        let d: u64 = (h / p) % 16;
        let c = if d < 10 {
            char_from_ascii(48 + d as u32)
        } else {
            char_from_ascii(87 + d as u32)
        };
        proof {
            assert(c == hex_char(((h as int) / pow16((15 - k) as nat)) % 16));
        }
        let ghost before = out@;
        push_char(&mut out, c);
        proof {
            assert forall|i: int| 0 <= i < k + 1 implies #[trigger] out@[i] == hex16(h)[i] by {
                if i < k {
                    assert(out@[i] == before[i]);
                }
            }
            if k < 15 {
                lemma_pow16_step(k as nat);
            }
        }
        p = p / 16;
        k = k + 1;
    }
    proof {
        assert(out@ =~= hex16(h));
    }
    out
}

/// The stable id of a source binding, derived from its source key and organisation
/// alone.
pub fn binding_id(source_key: &str, org: Option<&str>) -> (r: String)
    ensures
        r@ == binding_id_spec(source_key@, match org {
            Some(o) => Some(o@),
            None => None,
        }),
{
    let mut raw = copy_str(source_key);
    push_char(&mut raw, '|');
    match org {
        Some(o) => append_str(&mut raw, o),
        None => append_str(&mut raw, "__default__"),
    }
    let ghost og = match org {
        Some(o) => Some(o@),
        None => None,
    };
    proof {
        assert(raw@ =~= binding_seed(source_key@, og));
    }
    let h = fnv1a64(raw.as_str());
    let mut out = copy_str("rsb_");
    let hx = hex_text(h);
    append_str(&mut out, hx.as_str());
    out
}

/// Where the records of a floating area come from.
#[derive(Debug, PartialEq, Eq)]
pub enum FloatSource {
    /// The built-in sample: five customers.
    Sample,
    /// The built-in grouped sample: customers by region.
    SampleHier,
    /// `flist:ar_cust[?top=N]`: the customers with the largest positive receivable
    /// balance, at most `top` of them.
    Flist { object: String, top: i64 },
    /// `dict:<table>`: the codes and names of a dimension dictionary.
    Dict { table: String, key_field: String, label_field: String, dim: String },
}

/// Why a data source cannot be read.
#[derive(Debug, PartialEq, Eq)]
pub enum FloatSourceError {
    /// A `flist:` object other than `ar_cust`.
    UnsupportedFlist(String),
    /// A `dict:` table outside the allowed dictionaries.
    UnsupportedDict(String),
    /// Nothing this store reads.
    Unparsable(String),
}

/// The `top` of a `key=value` pair: the value after the first `=`, trimmed and read
/// as an integer, when the key is `top`.
pub open spec fn kv_top(kv: Seq<char>) -> Option<i64> {
    let parts = split_spec(kv, '=');
    if parts.len() > 1 && parts[0] == "top"@ {
        crate::text::i64_of_text(trim_spec(kv.subrange(parts[0].len() + 1 as int, kv.len() as int)))
    } else {
        None
    }
}

/// The first `top` among `&`-separated pairs.
pub open spec fn first_top(kvs: Seq<Seq<char>>) -> Option<i64>
    decreases kvs.len(),
{
    if kvs.len() == 0 {
        None
    } else {
        match kv_top(kvs[0]) {
            Some(t) => Some(t),
            None => first_top(kvs.subrange(1, kvs.len() as int)),
        }
    }
}

/// The `top` of a `flist:` source: from its query (`?top=N`), 10 without one,
/// clamped to 1..=500.
pub open spec fn flist_top(rest: Seq<char>) -> i64 {
    let q = split_spec(rest, '?');
    let t: i64 = if q.len() > 1 {
        match first_top(split_spec(q[1], '&')) {
            Some(t) => t,
            None => 10,
        }
    } else {
        10
    };
    if t < 1 {
        1
    } else if t > 500 {
        500
    } else {
        t
    }
}

/// The plan of a data source, as plain values: (kind, object or table, top).
pub open spec fn float_source_spec(ds: Seq<char>) -> Result<FloatSourceV, FloatSourceErrV> {
    let spec = trim_spec(ds);
    if spec.len() == 0 || same_ignoring_case(spec, "sample"@) {
        Ok(FloatSourceV::Sample)
    } else if same_ignoring_case(spec, "sample-hier"@) {
        Ok(FloatSourceV::SampleHier)
    } else if has_prefix(spec, "flist:"@) {
        let rest = spec.subrange(6, spec.len() as int);
        let obj = trim_spec(split_spec(rest, '?')[0]);
        if obj == "ar_cust"@ {
            Ok(FloatSourceV::Flist(obj, flist_top(rest)))
        } else {
            Err(FloatSourceErrV::UnsupportedFlist(obj))
        }
    } else if has_prefix(spec, "dict:"@) {
        let rest = spec.subrange(5, spec.len() as int);
        let table = trim_spec(split_spec(rest, '?')[0]);
        if table == "cr_consol_org"@ {
            Ok(FloatSourceV::Dict(table, "org_code"@))
        } else if table == "cr_acct_calendar"@ {
            Ok(FloatSourceV::Dict(table, "period_code"@))
        } else {
            Err(FloatSourceErrV::UnsupportedDict(table))
        }
    } else {
        Err(FloatSourceErrV::Unparsable(spec))
    }
}

/// A plan as plain values (a dictionary's key and label fields are always `code`
/// and `name`).
pub enum FloatSourceV {
    Sample,
    SampleHier,
    Flist(Seq<char>, i64),
    Dict(Seq<char>, Seq<char>),
}

/// An error as plain values.
pub enum FloatSourceErrV {
    UnsupportedFlist(Seq<char>),
    UnsupportedDict(Seq<char>),
    Unparsable(Seq<char>),
}

impl View for FloatSource {
    type V = FloatSourceV;

    open spec fn view(&self) -> FloatSourceV {
        match self {
            FloatSource::Sample => FloatSourceV::Sample,
            FloatSource::SampleHier => FloatSourceV::SampleHier,
            FloatSource::Flist { object, top } => FloatSourceV::Flist(object@, *top),
            FloatSource::Dict { table, dim, .. } => FloatSourceV::Dict(table@, dim@),
        }
    }
}

impl View for FloatSourceError {
    type V = FloatSourceErrV;

    open spec fn view(&self) -> FloatSourceErrV {
        match self {
            FloatSourceError::UnsupportedFlist(o) => FloatSourceErrV::UnsupportedFlist(o@),
            FloatSourceError::UnsupportedDict(t) => FloatSourceErrV::UnsupportedDict(t@),
            FloatSourceError::Unparsable(s) => FloatSourceErrV::Unparsable(s@),
        }
    }
}

fn kv_top_of(kv: &str) -> (r: Option<i64>)
    ensures
        r == kv_top(kv@),
{
    let parts = split_str(kv, '=');
    proof {
        assert(parts@.len() == split_spec(kv@, '=').len());
    }
    if parts.len() > 1 && crate::text::str_eq(parts[0].as_str(), "top") {
        proof {
            assert(parts@[0]@ == split_spec(kv@, '=')[0]);
            crate::text::lemma_split_first_len(kv@, '=');
        }
        let klen = parts[0].as_str().unicode_len();
        let n = kv.unicode_len();
        if klen >= n {
            return None;
        }
        let v = suffix_from(kv, klen + 1);
        let t = trim_str(v.as_str());
        crate::text::parse_i64(t.as_str())
    } else {
        proof {
            if parts@.len() > 1 {
                assert(parts@[0]@ == split_spec(kv@, '=')[0]);
            }
        }
        None
    }
}

fn first_top_of(kvs: &Vec<String>) -> (r: Option<i64>)
    ensures
        r == first_top(kvs@.map_values(|x: String| x@)),
{
    let ghost kv = kvs@.map_values(|x: String| x@);
    let mut i: usize = 0;
    proof {
        assert(kv.subrange(0, kv.len() as int) =~= kv);
    }
    while i < kvs.len()
        invariant
            i <= kvs@.len(),
            kv == kvs@.map_values(|x: String| x@),
            first_top(kv) == first_top(kv.subrange(i as int, kv.len() as int)),
        decreases kvs@.len() - i,
    {
        let ghost restk = kv.subrange(i as int, kv.len() as int);
        proof {
            assert(restk[0] == kvs@[i as int]@);
            assert(restk.subrange(1, restk.len() as int) =~= kv.subrange(i + 1, kv.len() as int));
        }
        if let Some(v) = kv_top_of(kvs[i].as_str()) {
            return Some(v);
        }
        i = i + 1;
    }
    proof {
        assert(kv.subrange(i as int, kv.len() as int) =~= Seq::<Seq<char>>::empty());
    }
    None
}

fn flist_top_of(rest: &str) -> (r: i64)
    ensures
        r == flist_top(rest@),
{
    let q = split_str(rest, '?');
    proof {
        assert(q@.len() == split_spec(rest@, '?').len());
    }
    let mut t: i64 = 10;
    if q.len() > 1 {
        proof {
            assert(q@[1]@ == split_spec(rest@, '?')[1]);
        }
        let kvs = split_str(q[1].as_str(), '&');
        t = match first_top_of(&kvs) {
            Some(v) => v,
            None => 10,
        };
    }
    if t < 1 {
        1
    } else if t > 500 {
        500
    } else {
        t
    }
}

fn head_trimmed(rest: &str) -> (r: String)
    ensures
        r@ == trim_spec(split_spec(rest@, '?')[0]),
{
    let q = split_str(rest, '?');
    proof {
        crate::text::lemma_split_nonempty(rest@, '?');
        assert(q@.len() == split_spec(rest@, '?').len());
        assert(q@[0]@ == split_spec(rest@, '?')[0]);
    }
    trim_str(q[0].as_str())
}

/// Reads a floating area's data source: a built-in sample, a `flist:` fetch of the
/// largest receivables, or a `dict:` dictionary listing (see `float_source_spec`).
pub fn float_source_plan(data_source: &str) -> (r: Result<FloatSource, FloatSourceError>)
    ensures
        match float_source_spec(data_source@) {
            Ok(v) => r matches Ok(x) && x@ == v && (x matches FloatSource::Dict { key_field, label_field, .. }
                ==> key_field@ == "code"@ && label_field@ == "name"@),
            Err(e) => r matches Err(x) && x@ == e,
        },
{
    let spec = trim_str(data_source);
    if spec.as_str().is_empty() || ieq(spec.as_str(), "sample") {
        return Ok(FloatSource::Sample);
    }
    if ieq(spec.as_str(), "sample-hier") {
        return Ok(FloatSource::SampleHier);
    }
    if starts_with(spec.as_str(), "flist:") {
        proof {
            reveal_strlit("flist:");
        }
        let rest = suffix_from(spec.as_str(), 6);
        let obj = head_trimmed(rest.as_str());
        if crate::text::str_eq(obj.as_str(), "ar_cust") {
            let top = flist_top_of(rest.as_str());
            return Ok(FloatSource::Flist { object: obj, top });
        }
        return Err(FloatSourceError::UnsupportedFlist(obj));
    }
    if starts_with(spec.as_str(), "dict:") {
        proof {
            reveal_strlit("dict:");
        }
        let rest = suffix_from(spec.as_str(), 5);
        let table = head_trimmed(rest.as_str());
        if crate::text::str_eq(table.as_str(), "cr_consol_org") {
            return Ok(FloatSource::Dict { table, key_field: copy_str("code"), label_field: copy_str("name"), dim: copy_str("org_code") });
        }
        if crate::text::str_eq(table.as_str(), "cr_acct_calendar") {
            return Ok(FloatSource::Dict { table, key_field: copy_str("code"), label_field: copy_str("name"), dim: copy_str("period_code") });
        }
        return Err(FloatSourceError::UnsupportedDict(table));
    }
    Err(FloatSourceError::Unparsable(spec))
}

/// A source record as (label, dimensions).
pub open spec fn record_shape(r: SourceRecord) -> (Seq<char>, Seq<(Seq<char>, Seq<char>)>) {
    (r.label@, r.dims@.map_values(|d: (String, String)| (d.0@, d.1@)))
}

fn record(label: &str, dims: Vec<(String, String)>) -> (r: SourceRecord)
    ensures
        r.label@ == label@,
        r.dims == dims,
        r.cells@.len() == 0,
{
    SourceRecord { label: copy_str(label), dims, cells: Vec::new() }
}

fn dim(k: &str, v: &str) -> (r: (String, String))
    ensures
        r.0@ == k@,
        r.1@ == v@,
{
    (copy_str(k), copy_str(v))
}

/// The built-in sample: five customers, each with its `cust_code`.
pub fn sample_records() -> (r: Vec<SourceRecord>)
    ensures
        r@.map_values(|x: SourceRecord| record_shape(x)) == seq![
            ("上海A公司"@, seq![("cust_code"@, "C001"@)]),
            ("杭州B公司"@, seq![("cust_code"@, "C002"@)]),
            ("南京C公司"@, seq![("cust_code"@, "C003"@)]),
            ("北京D公司"@, seq![("cust_code"@, "C004"@)]),
            ("天津E公司"@, seq![("cust_code"@, "C005"@)])
        ],
        forall|i: int| 0 <= i < r@.len() ==> (#[trigger] r@[i]).cells@.len() == 0,
{
    let mut v: Vec<SourceRecord> = Vec::new();
    v.push(record("上海A公司", vec![dim("cust_code", "C001")]));
    v.push(record("杭州B公司", vec![dim("cust_code", "C002")]));
    v.push(record("南京C公司", vec![dim("cust_code", "C003")]));
    v.push(record("北京D公司", vec![dim("cust_code", "C004")]));
    v.push(record("天津E公司", vec![dim("cust_code", "C005")]));
    proof {
        assert(v@.map_values(|x: SourceRecord| record_shape(x)) =~= seq![
            ("上海A公司"@, seq![("cust_code"@, "C001"@)]),
            ("杭州B公司"@, seq![("cust_code"@, "C002"@)]),
            ("南京C公司"@, seq![("cust_code"@, "C003"@)]),
            ("北京D公司"@, seq![("cust_code"@, "C004"@)]),
            ("天津E公司"@, seq![("cust_code"@, "C005"@)])
        ]) by {
            assert(v@[0].dims@.map_values(|d: (String, String)| (d.0@, d.1@)) =~= seq![("cust_code"@, "C001"@)]);
            assert(v@[1].dims@.map_values(|d: (String, String)| (d.0@, d.1@)) =~= seq![("cust_code"@, "C002"@)]);
            assert(v@[2].dims@.map_values(|d: (String, String)| (d.0@, d.1@)) =~= seq![("cust_code"@, "C003"@)]);
            assert(v@[3].dims@.map_values(|d: (String, String)| (d.0@, d.1@)) =~= seq![("cust_code"@, "C004"@)]);
            assert(v@[4].dims@.map_values(|d: (String, String)| (d.0@, d.1@)) =~= seq![("cust_code"@, "C005"@)]);
        }
    }
    v
}

/// The built-in grouped sample: the same customers, each with its `region` and
/// `cust_code`.
pub fn sample_hier_records() -> (r: Vec<SourceRecord>)
    ensures
        r@.map_values(|x: SourceRecord| record_shape(x)) == seq![
            ("上海A公司"@, seq![("region"@, "华东"@), ("cust_code"@, "C001"@)]),
            ("杭州B公司"@, seq![("region"@, "华东"@), ("cust_code"@, "C002"@)]),
            ("南京C公司"@, seq![("region"@, "华东"@), ("cust_code"@, "C003"@)]),
            ("北京D公司"@, seq![("region"@, "华北"@), ("cust_code"@, "C004"@)]),
            ("天津E公司"@, seq![("region"@, "华北"@), ("cust_code"@, "C005"@)])
        ],
        forall|i: int| 0 <= i < r@.len() ==> (#[trigger] r@[i]).cells@.len() == 0,
{
    let mut v: Vec<SourceRecord> = Vec::new();
    v.push(record("上海A公司", vec![dim("region", "华东"), dim("cust_code", "C001")]));
    v.push(record("杭州B公司", vec![dim("region", "华东"), dim("cust_code", "C002")]));
    v.push(record("南京C公司", vec![dim("region", "华东"), dim("cust_code", "C003")]));
    v.push(record("北京D公司", vec![dim("region", "华北"), dim("cust_code", "C004")]));
    v.push(record("天津E公司", vec![dim("region", "华北"), dim("cust_code", "C005")]));
    proof {
        assert(v@.map_values(|x: SourceRecord| record_shape(x)) =~= seq![
            ("上海A公司"@, seq![("region"@, "华东"@), ("cust_code"@, "C001"@)]),
            ("杭州B公司"@, seq![("region"@, "华东"@), ("cust_code"@, "C002"@)]),
            ("南京C公司"@, seq![("region"@, "华东"@), ("cust_code"@, "C003"@)]),
            ("北京D公司"@, seq![("region"@, "华北"@), ("cust_code"@, "C004"@)]),
            ("天津E公司"@, seq![("region"@, "华北"@), ("cust_code"@, "C005"@)])
        ]) by {
            assert(v@[0].dims@.map_values(|d: (String, String)| (d.0@, d.1@)) =~= seq![("region"@, "华东"@), ("cust_code"@, "C001"@)]);
            assert(v@[1].dims@.map_values(|d: (String, String)| (d.0@, d.1@)) =~= seq![("region"@, "华东"@), ("cust_code"@, "C002"@)]);
            assert(v@[2].dims@.map_values(|d: (String, String)| (d.0@, d.1@)) =~= seq![("region"@, "华东"@), ("cust_code"@, "C003"@)]);
            assert(v@[3].dims@.map_values(|d: (String, String)| (d.0@, d.1@)) =~= seq![("region"@, "华北"@), ("cust_code"@, "C004"@)]);
            assert(v@[4].dims@.map_values(|d: (String, String)| (d.0@, d.1@)) =~= seq![("region"@, "华北"@), ("cust_code"@, "C005"@)]);
        }
    }
    v
}

/// The record of a customer fetched by `flist:ar_cust`: labelled `客户 {code}`.
pub fn flist_record(code: &str) -> (r: SourceRecord)
    ensures
        record_shape(r) == ("客户 "@ + code@, seq![("cust_code"@, code@)]),
        r.cells@.len() == 0,
{
    let mut label = copy_str("客户 ");
    append_str(&mut label, code);
    let r = SourceRecord { label, dims: vec![dim("cust_code", code)], cells: Vec::new() };
    proof {
        assert(r.dims@.map_values(|d: (String, String)| (d.0@, d.1@)) =~= seq![("cust_code"@, code@)]);
    }
    r
}

/// The record of a dictionary entry: labelled by its name, or by its code when it
/// has none.
pub fn dict_record(dim_name: &str, code: &str, name: Option<&str>) -> (r: SourceRecord)
    ensures
        record_shape(r) == (match name {
            Some(n) => n@,
            None => code@,
        }, seq![(dim_name@, code@)]),
        r.cells@.len() == 0,
{
    let label = match name {
        Some(n) => copy_str(n),
        None => copy_str(code),
    };
    let r = SourceRecord { label, dims: vec![dim(dim_name, code)], cells: Vec::new() };
    proof {
        assert(r.dims@.map_values(|d: (String, String)| (d.0@, d.1@)) =~= seq![(dim_name@, code@)]);
    }
    r
}

} // verus!
