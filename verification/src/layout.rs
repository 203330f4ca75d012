//! Saving and loading a report layout: the layout document travels as base64 text,
//! is stored as bytes with its SHA-256 (lower-case hex) for optimistic locking, and
//! rows, columns and cells keep their ids across saves by business key.
use vstd::prelude::*;
use crate::text::{copy_str, push_char, append_str, str_eq, char_from_ascii};

verus! {

/// The standard base64 character of a 6-bit value.
pub open spec fn b64_char(v: int) -> char {
    if v < 26 {
        (65 + v) as char
    } else if v < 52 {
        (71 + v) as char
    } else if v < 62 {
        (v - 4) as char
    } else if v == 62 {
        '+'
    } else {
        '/'
    }
}

/// Standard base64 with padding (RFC 4648, alphabet `A-Za-z0-9+/`, `=` padding).
pub open spec fn base64_spec(bs: Seq<u8>) -> Seq<char>
    decreases bs.len(),
{
    if bs.len() == 0 {
        Seq::empty()
    } else if bs.len() == 1 {
        seq![b64_char(bs[0] as int / 4), b64_char((bs[0] as int % 4) * 16), '=', '=']
    } else if bs.len() == 2 {
        seq![b64_char(bs[0] as int / 4), b64_char((bs[0] as int % 4) * 16 + bs[1] as int / 16), b64_char((bs[1] as int % 16) * 4), '=']
    } else {
        seq![
            b64_char(bs[0] as int / 4),
            b64_char((bs[0] as int % 4) * 16 + bs[1] as int / 16),
            b64_char((bs[1] as int % 16) * 4 + bs[2] as int / 64),
            b64_char(bs[2] as int % 64),
        ] + base64_spec(bs.subrange(3, bs.len() as int))
    }
}

/// What the standard base64 decoder (canonical padding, no trailing bits) gives for
/// a text; None where it refuses it.
pub uninterp spec fn base64_decoded(s: Seq<char>) -> Option<Seq<u8>>;

/// The SHA-256 digest of some bytes.
pub uninterp spec fn sha256_digest(bs: Seq<u8>) -> Seq<u8>;

/// The 64-bit xxHash of some bytes with a seed.
pub uninterp spec fn xxh64_hash(bs: Seq<u8>, seed: u64) -> u64;

/// `base64::engine::general_purpose::STANDARD.encode`: standard base64 with
/// padding, as `base64_spec` states it.
#[verifier::external_body]
fn base64_encode(bytes: &[u8]) -> (r: String)
    requires
        bytes@.len() <= (usize::MAX as int / 4) * 3,
    ensures
        r@ == base64_spec(bytes@),
{
    base64::Engine::encode(&base64::engine::general_purpose::STANDARD, bytes)
}

/// `base64::engine::general_purpose::STANDARD.decode` of a text's bytes: the bytes,
/// or None where the text is not canonical padded standard base64. What it accepts
/// and gives is named, not stated.
#[verifier::external_body]
fn base64_decode(text: &str) -> (r: Option<Vec<u8>>)
    ensures
        match base64_decoded(text@) {
            Some(b) => r matches Some(v) && v@ == b,
            None => r is None,
        },
{
    match base64::Engine::decode(&base64::engine::general_purpose::STANDARD, text) {
        Ok(v) => Some(v),
        Err(_) => None,
    }
}

/// `sha2::Sha256::digest`: the 32-byte digest, named.
#[verifier::external_body]
fn sha256(bytes: &[u8]) -> (r: Vec<u8>)
    ensures
        r@ == sha256_digest(bytes@),
        r@.len() == 32,
{
    <sha2::Sha256 as sha2::Digest>::digest(bytes).as_slice().to_vec()
}

/// `xxhash_rust::xxh64::xxh64`: the 64-bit xxHash, named.
#[verifier::external_body]
fn xxh64(bytes: &[u8], seed: u64) -> (r: u64)
    ensures
        r == xxh64_hash(bytes@, seed),
{
    xxhash_rust::xxh64::xxh64(bytes, seed)
}

/// A byte as two lower-case hex digits.
pub open spec fn byte_hex(b: u8) -> Seq<char> {
    seq![crate::store::hex_char(b as int / 16), crate::store::hex_char(b as int % 16)]
}

/// Bytes in lower-case hex (`{:x}` of a digest): two digits per byte.
pub open spec fn hex_bytes(bs: Seq<u8>) -> Seq<char>
    decreases bs.len(),
{
    if bs.len() == 0 {
        Seq::empty()
    } else {
        hex_bytes(bs.drop_last()) + byte_hex(bs.last())
    }
}

fn hex_digit(d: u8) -> (c: char)
    requires
        d < 16,
    ensures
        c == crate::store::hex_char(d as int),
{
    if d < 10 {
        char_from_ascii(48 + d as u32)
    } else {
        char_from_ascii(87 + d as u32)
    }
}

/// Bytes in lower-case hex.
pub fn to_hex(bs: &[u8]) -> (r: String)
    ensures
        r@ == hex_bytes(bs@),
{
    let mut s = String::new();
    let mut i: usize = 0;
    proof {
        assert(bs@.subrange(0, 0) =~= Seq::<u8>::empty());
        assert(s@ =~= hex_bytes(Seq::<u8>::empty()));
    }
    while i < bs.len()
        invariant
            i <= bs@.len(),
            s@ == hex_bytes(bs@.subrange(0, i as int)),
        decreases bs@.len() - i,
    {
        let b = bs[i];
        let ghost before = s@;
        push_char(&mut s, hex_digit(b / 16));
        push_char(&mut s, hex_digit(b % 16));
        proof {
            let nx = bs@.subrange(0, i + 1);
            assert(nx.drop_last() =~= bs@.subrange(0, i as int));
            assert(nx.last() == b);
            assert(s@ =~= before + byte_hex(b));
        }
        i = i + 1;
    }
    proof {
        assert(bs@.subrange(0, bs@.len() as int) =~= bs@);
    }
    s
}

/// The layout document as stored.
#[derive(Debug)]
pub struct LayoutDoc {
    pub bytes: Vec<u8>,
    /// `ssjson` unless given.
    pub doc_format: String,
    /// `application/json` unless given.
    pub mime_type: String,
    /// The SHA-256 of the bytes, lower-case hex.
    pub content_hash: String,
    pub file_size: usize,
}

/// Why a layout document is refused.
#[derive(Debug, PartialEq, Eq)]
pub enum LayoutError {
    /// The document is not valid base64.
    BadBase64,
}

/// Prepares a layout document for storage: its base64 text decoded, its format and
/// MIME type defaulted, its SHA-256 computed.
pub fn layout_doc(doc_b64: &str, doc_format: Option<&str>, mime_type: Option<&str>) -> (r: Result<LayoutDoc, LayoutError>)
    ensures
        match base64_decoded(doc_b64@) {
            None => r == Err::<LayoutDoc, LayoutError>(LayoutError::BadBase64),
            Some(b) => r matches Ok(d) && d.bytes@ == b && d.file_size == b.len() && d.content_hash@ == hex_bytes(
                sha256_digest(b),
            ) && d.doc_format@ == (match doc_format {
                Some(f) => f@,
                None => "ssjson"@,
            }) && d.mime_type@ == (match mime_type {
                Some(m) => m@,
                None => "application/json"@,
            }),
        },
{
    let bytes = match base64_decode(doc_b64) {
        Some(b) => b,
        None => {
            return Err(LayoutError::BadBase64);
        },
    };
    let digest = sha256(bytes.as_slice());
    let content_hash = to_hex(digest.as_slice());
    let file_size = bytes.len();
    let doc_format = match doc_format {
        Some(f) => copy_str(f),
        None => copy_str("ssjson"),
    };
    let mime_type = match mime_type {
        Some(m) => copy_str(m),
        None => copy_str("application/json"),
    };
    Ok(LayoutDoc { bytes, doc_format, mime_type, content_hash, file_size })
}

/// The stored document as base64 text for the client.
pub fn layout_content(bytes: &[u8]) -> (r: String)
    requires
        bytes@.len() <= (usize::MAX as int / 4) * 3,
    ensures
        r@ == base64_spec(bytes@),
{
    base64_encode(bytes)
}

/// Optimistic locking: a save conflicts when the stored layout has a hash and the
/// client sent a different one (a client sending none overwrites).
pub fn layout_conflict(db_hash: Option<&str>, client_hash: Option<&str>) -> (r: bool)
    ensures
        r == (match (db_hash, client_hash) {
            (Some(d), Some(c)) => d@.len() > 0 && c@ != d@,
            _ => false,
        }),
{
    match (db_hash, client_hash) {
        (Some(d), Some(c)) => !d.is_empty() && !str_eq(c, d),
        _ => false,
    }
}

/// The revision of a page source: its xxHash (seed 0) as 16 lower-case hex digits.
pub fn content_rev(bytes: &[u8]) -> (r: String)
    ensures
        r@ == crate::store::hex16(xxh64_hash(bytes@, 0)),
{
    let h = xxh64(bytes, 0);
    crate::store::hex_text(h)
}

/// What a client sends as the id of a row, column or cell.
#[derive(Debug, Clone)]
pub enum IdHint {
    /// A number.
    Num(Option<i64>),
    /// A text: a real id in digits, or a temporary `t:...` id.
    Text(String),
    /// Nothing usable.
    Missing,
}

/// The id a saved row, column or cell keeps: the real id the client sent (a number,
/// or a text of digits), else the id its business key had before, else none (a
/// new id is minted).
pub open spec fn resolve_id_spec(hint: IdHint, reuse: Seq<(String, i64)>, bkey: Seq<char>) -> Option<i64> {
    let sent: Option<i64> = match hint {
        IdHint::Num(Some(x)) => Some(x),
        IdHint::Text(s) => if s@.len() > 0 && crate::text::all_digits(s@) {
            crate::text::i64_of_text(s@)
        } else {
            None
        },
        _ => None,
    };
    match sent {
        Some(x) => Some(x),
        None => if bkey.len() > 0 {
            crate::consol::consolidate::first_dec_i64(reuse, bkey)
        } else {
            None
        },
    }
}

fn all_digit_chars(s: &str) -> (r: bool)
    ensures
        r == crate::text::all_digits(s@),
{
    let cs = crate::text::chars_of(s);
    let mut i: usize = 0;
    while i < cs.len()
        invariant
            i <= cs@.len(),
            cs@ == s@,
            forall|j: int| 0 <= j < i ==> crate::text::is_digit(#[trigger] cs@[j]),
        decreases cs@.len() - i,
    {
        if !('0' <= cs[i] && cs[i] <= '9') {
            return false;
        }
        i = i + 1;
    }
    true
}

fn find_id(m: &Vec<(String, i64)>, k: &str) -> (r: Option<i64>)
    ensures
        r == crate::consol::consolidate::first_dec_i64(m@, k@),
{
    let mut i: usize = 0;
    proof {
        assert(m@.subrange(0, m@.len() as int) =~= m@);
    }
    while i < m.len()
        invariant
            i <= m@.len(),
            crate::consol::consolidate::first_dec_i64(m@, k@) == crate::consol::consolidate::first_dec_i64(
                m@.subrange(i as int, m@.len() as int),
                k@,
            ),
        decreases m@.len() - i,
    {
        let ghost rest = m@.subrange(i as int, m@.len() as int);
        proof {
            assert(rest[0] == m@[i as int]);
            assert(rest.subrange(1, rest.len() as int) =~= m@.subrange(i + 1, m@.len() as int));
        }
        if str_eq(m[i].0.as_str(), k) {
            return Some(m[i].1);
        }
        i = i + 1;
    }
    proof {
        assert(m@.subrange(i as int, m@.len() as int) =~= Seq::<(String, i64)>::empty());
    }
    None
}

/// The id a saved row, column or cell keeps (see `resolve_id_spec`); None: mint one.
pub fn resolve_or_reuse(hint: &IdHint, reuse: &Vec<(String, i64)>, bkey: &str) -> (r: Option<i64>)
    ensures
        r == resolve_id_spec(*hint, reuse@, bkey@),
{
    let sent: Option<i64> = match hint {
        IdHint::Num(Some(x)) => Some(*x),
        IdHint::Text(s) => if !s.as_str().is_empty() && all_digit_chars(s.as_str()) {
            crate::text::parse_i64(s.as_str())
        } else {
            None
        },
        _ => None,
    };
    match sent {
        Some(x) => Some(x),
        None => if !bkey.is_empty() {
            find_id(reuse, bkey)
        } else {
            None
        },
    }
}

/// The business key of a row, column or cell: `sheet|region|key`.
pub fn business_key(sheet: &str, region: &str, key: &str) -> (r: String)
    ensures
        r@ == sheet@ + seq!['|'] + region@ + seq!['|'] + key@,
{
    let mut s = copy_str(sheet);
    push_char(&mut s, '|');
    append_str(&mut s, region);
    push_char(&mut s, '|');
    append_str(&mut s, key);
    s
}

/// A region code, `__default__` when empty or missing.
pub fn region_or_default(code: Option<&str>) -> (r: String)
    ensures
        r@ == (match code {
            Some(c) => if c@.len() > 0 {
                c@
            } else {
                "__default__"@
            },
            None => "__default__"@,
        }),
{
    match code {
        Some(c) => if c.is_empty() {
            copy_str("__default__")
        } else {
            copy_str(c)
        },
        None => copy_str("__default__"),
    }
}


// ----------------------------------------------------------------------------
// Cell mappings of a saved layout
// ----------------------------------------------------------------------------
/// A cell mapping's reference to its row or column: a number (None when it is not an
/// `i64`), the temporary id of a row or column saved in the same request, or nothing.
pub enum IdRef {
    Num(Option<i64>),
    Temp(String),
    Absent,
}

/// The real id given last to a temporary id.
pub open spec fn last_id(m: Seq<(String, i64)>, k: Seq<char>) -> Option<i64>
    decreases m.len(),
{
    if m.len() == 0 {
        None
    } else if m.last().0@ == k {
        Some(m.last().1)
    } else {
        last_id(m.drop_last(), k)
    }
}

/// The id a reference stands for: the number itself, the real id its temporary id
/// was given (the latest such), else 0.
pub open spec fn ref_id_spec(r: IdRef, temp: Seq<(String, i64)>) -> i64 {
    match r {
        IdRef::Num(Some(n)) => n,
        IdRef::Temp(t) => match last_id(temp, t@) {
            Some(x) => x,
            None => 0,
        },
        _ => 0,
    }
}

/// The id a row or column reference of a cell mapping resolves to (see
/// `ref_id_spec`); `temp` holds (temporary id, real id) in the order they were given.
pub fn resolve_ref(r: &IdRef, temp: &Vec<(String, i64)>) -> (x: i64)
    ensures
        x == ref_id_spec(*r, temp@),
{
    match r {
        IdRef::Num(Some(n)) => *n,
        IdRef::Num(None) => 0,
        IdRef::Absent => 0,
        IdRef::Temp(t) => {
            let mut i: usize = temp.len();
            assert(temp@.subrange(0, temp@.len() as int) =~= temp@);
            while i > 0
                invariant
                    i <= temp@.len(),
                    *r == IdRef::Temp(*t),
                    last_id(temp@, t@) == last_id(temp@.subrange(0, i as int), t@),
                decreases i,
            {
                let ghost p = temp@.subrange(0, i as int);
                assert(p.drop_last() =~= temp@.subrange(0, i - 1));
                assert(p.last() == temp@[i - 1]);
                if str_eq(temp[i - 1].0.as_str(), t.as_str()) {
                    assert(last_id(p, t@) == Some(temp@[i - 1].1));
                    assert(*r == IdRef::Temp(*t));
                    return temp[i - 1].1;
                }
                i = i - 1;
            }
            assert(temp@.subrange(0, 0) =~= Seq::<(String, i64)>::empty());
            0
        },
    }
}

/// A cell mapping as saved: its sheet, region and cell reference, and its row and
/// column references.
pub struct CellIn {
    pub sheet: Option<String>,
    pub region: Option<String>,
    pub cell_ref: Option<String>,
    pub row: IdRef,
    pub col: IdRef,
}

/// A cell mapping with its ids settled.
pub struct CellOut {
    /// The id it keeps (None: a new one is minted).
    pub id: Option<i64>,
    /// Its code: the cell reference, or `CM<n>` (1-based position) without one.
    pub code: String,
    /// Its region, `__default__` when missing or empty.
    pub region: String,
    pub row_id: i64,
    pub col_id: i64,
}

/// A text, or the empty text.
pub open spec fn text_or_empty(s: Option<String>) -> Seq<char> {
    match s {
        Some(x) => x@,
        None => Seq::empty(),
    }
}

/// The region of a cell mapping: its own when non-empty, else `__default__`.
pub open spec fn cell_region(c: CellIn) -> Seq<char> {
    if text_or_empty(c.region).len() > 0 {
        text_or_empty(c.region)
    } else {
        "__default__"@
    }
}

/// The id a cell mapping keeps: the one stored under `sheet|region|cell` for a
/// mapping with a cell reference, None (mint one) otherwise.
pub open spec fn cell_id_spec(c: CellIn, reuse: Seq<(String, i64)>) -> Option<i64> {
    let r = text_or_empty(c.cell_ref);
    if r.len() == 0 {
        None
    } else {
        crate::consol::consolidate::first_dec_i64(reuse, text_or_empty(c.sheet) + seq!['|'] + cell_region(c) + seq!['|'] + r)
    }
}

/// The code of the cell mapping at 0-based position `idx`.
pub open spec fn cell_code_spec(c: CellIn, idx: int) -> Seq<char> {
    if text_or_empty(c.cell_ref).len() > 0 {
        text_or_empty(c.cell_ref)
    } else {
        "CM"@ + crate::text::int_text(idx + 1)
    }
}

fn opt_text(s: &Option<String>) -> (r: &str)
    ensures
        r@ == text_or_empty(*s),
{
    match s {
        Some(x) => {
            let r = x.as_str();
            assert(*s == Some(*x));
            r
        },
        None => {
            proof {
                reveal_strlit("");
            }
            ""
        },
    }
}

/// Settles the ids of the cell mappings of a saved layout: each keeps its stored id
/// (by `sheet|region|cell`), gets its code and region, and its row and column
/// references resolved through the temporary ids given in the same save.
pub fn resolve_cell_ids(cells: &Vec<CellIn>, temp: &Vec<(String, i64)>, reuse: &Vec<(String, i64)>) -> (r: Vec<CellOut>)
    requires
        cells@.len() < i64::MAX,
    ensures
        r@.len() == cells@.len(),
        forall|i: int|
            0 <= i < cells@.len() ==> {
                &&& (#[trigger] r@[i]).id == cell_id_spec(cells@[i], reuse@)
                &&& r@[i].code@ == cell_code_spec(cells@[i], i)
                &&& r@[i].region@ == cell_region(cells@[i])
                &&& r@[i].row_id == ref_id_spec(cells@[i].row, temp@)
                &&& r@[i].col_id == ref_id_spec(cells@[i].col, temp@)
            },
{
    let mut out: Vec<CellOut> = Vec::new();
    let mut i: usize = 0;
    while i < cells.len()
        invariant
            i <= cells@.len(),
            cells@.len() < i64::MAX,
            out@.len() == i,
            forall|j: int|
                0 <= j < i ==> {
                    &&& (#[trigger] out@[j]).id == cell_id_spec(cells@[j], reuse@)
                    &&& out@[j].code@ == cell_code_spec(cells@[j], j)
                    &&& out@[j].region@ == cell_region(cells@[j])
                    &&& out@[j].row_id == ref_id_spec(cells@[j].row, temp@)
                    &&& out@[j].col_id == ref_id_spec(cells@[j].col, temp@)
                },
        decreases cells@.len() - i,
    {
        let c = &cells[i];
        let sheet = opt_text(&c.sheet);
        let cref = opt_text(&c.cell_ref);
        let region = region_or_default(match &c.region {
            Some(x) => Some(x.as_str()),
            None => None,
        });
        assert(region@ == cell_region(*c));
        let id = if cref.is_empty() {
            None
        } else {
            let bkey = business_key(sheet, region.as_str(), cref);
            find_id(reuse, bkey.as_str())
        };
        let code = if cref.is_empty() {
            let mut t = copy_str("CM");
            let n = crate::text::int_string(i as i64 + 1);
            append_str(&mut t, n.as_str());
            t
        } else {
            copy_str(cref)
        };
        let row_id = resolve_ref(&c.row, temp);
        let col_id = resolve_ref(&c.col, temp);
        out.push(CellOut { id, code, region, row_id, col_id });
        i = i + 1;
    }
    out
}

} // verus!
