//! Cell references inside formulas: recognising `C5`, splitting it, column
//! numbering and expanding a range `C5:D10` into its cells.
use vstd::prelude::*;
use crate::grid::{is_alpha, alpha_run, letters_val, col_letters};
use crate::text::{
    chars_of, string_of, push_char, append_str, int_string, int_text, parse_i64, i64_of_text, all_digits,
    is_digit, upper_char, upper_seq, to_upper_char, nat_digits, digits_val,
};

verus! {

/// An A1 reference: at least one ASCII letter, then at least one digit, nothing else.
pub open spec fn cell_ref_spec(s: Seq<char>) -> bool {
    let k = alpha_run(s) as int;
    k > 0 && k < s.len() && all_digits(s.subrange(k, s.len() as int))
}

/// The number of leading ASCII letters.
fn letter_run(cs: &Vec<char>) -> (r: usize)
    ensures
        r == alpha_run(cs@),
        r <= cs@.len(),
{
    proof {
        lemma_alpha_run_props(cs@);
    }
    let mut i: usize = 0;
    while i < cs.len() && (('a' <= cs[i] && cs[i] <= 'z') || ('A' <= cs[i] && cs[i] <= 'Z'))
        invariant
            i <= alpha_run(cs@),
            alpha_run(cs@) <= cs@.len(),
            forall|j: int| 0 <= j < alpha_run(cs@) ==> is_alpha(#[trigger] cs@[j]),
            alpha_run(cs@) < cs@.len() ==> !is_alpha(cs@[alpha_run(cs@) as int]),
        decreases cs@.len() - i,
    {
        i = i + 1;
    }
    i
}

proof fn lemma_alpha_run_props(s: Seq<char>)
    ensures
        alpha_run(s) <= s.len(),
        forall|i: int| 0 <= i < alpha_run(s) ==> is_alpha(#[trigger] s[i]),
        alpha_run(s) < s.len() ==> !is_alpha(s[alpha_run(s) as int]),
    decreases s.len(),
{
    if s.len() > 0 && is_alpha(s[0]) {
        let t = s.subrange(1, s.len() as int);
        lemma_alpha_run_props(t);
        assert forall|i: int| 0 <= i < alpha_run(s) implies is_alpha(#[trigger] s[i]) by {
            if i > 0 {
                assert(s[i] == t[i - 1]);
            }
        }
    }
}

/// Whether a text is an A1 cell reference (`C5`, `AA100`; not `C`, `5`, `C5D`, `a.b`).
pub fn is_cell_ref(s: &str) -> (r: bool)
    ensures
        r == cell_ref_spec(s@),
{
    let cs = chars_of(s);
    let k = letter_run(&cs);
    if k == 0 || k == cs.len() {
        return false;
    }
    let mut i = k;
    while i < cs.len()
        invariant
            cs@ == s@,
            k == alpha_run(cs@),
            0 < k < cs@.len(),
            k <= i <= cs@.len(),
            all_digits(cs@.subrange(k as int, i as int)),
        decreases cs@.len() - i,
    {
        if !('0' <= cs[i] && cs[i] <= '9') {
            proof {
                assert(cs@.subrange(k as int, cs@.len() as int)[i - k] == cs@[i as int]);
                assert(!is_digit(cs@.subrange(k as int, cs@.len() as int)[i - k]));
            }
            return false;
        }
        proof {
            assert forall|j: int| 0 <= j < i + 1 - k implies is_digit(#[trigger] cs@.subrange(k as int, i + 1)[j]) by {
                if j < i - k {
                    assert(cs@.subrange(k as int, i + 1)[j] == cs@.subrange(k as int, i as int)[j]);
                }
            }
        }
        i = i + 1;
    }
    true
}

/// What `str::parse::<u32>` gives (an optional `+`, digits, in range).
pub open spec fn u32_of_text(s: Seq<char>) -> Option<u32> {
    if s.len() > 0 && s[0] == '-' {
        None
    } else {
        match i64_of_text(s) {
            Some(v) => if 0 <= v <= u32::MAX {
                Some(v as u32)
            } else {
                None
            },
            None => None,
        }
    }
}

/// `str::parse::<u32>`.
pub fn parse_u32(s: &str) -> (r: Option<u32>)
    ensures
        r == u32_of_text(s@),
{
    let cs = chars_of(s);
    if cs.len() > 0 && cs[0] == '-' {
        return None;
    }
    match parse_i64(s) {
        Some(v) => if 0 <= v && v <= 4294967295 {
            Some(v as u32)
        } else {
            None
        },
        None => {
            proof {
                if crate::text::int_of_text(s@) is Some {
                    let v = crate::text::int_of_text(s@)->0;
                    assert(!(i64::MIN <= v <= i64::MAX));
                }
            }
            None
        },
    }
}

/// The parts of an A1 reference: the letters upper-cased and the row number, written
/// in ASCII digits only.
pub open spec fn split_spec(s: Seq<char>) -> Option<(Seq<char>, u32)> {
    let k = alpha_run(s) as int;
    if k == 0 || k == s.len() || !crate::text::all_digits(s.subrange(k, s.len() as int)) {
        None
    } else {
        match u32_of_text(s.subrange(k, s.len() as int)) {
            Some(row) => Some((upper_seq(s.subrange(0, k)), row)),
            None => None,
        }
    }
}

proof fn lemma_digits_val_nonneg(s: Seq<char>)
    requires
        all_digits(s),
    ensures
        digits_val(s) >= 0,
    decreases s.len(),
{
    if s.len() > 0 {
        assert(is_digit(s[s.len() - 1]));
        assert forall|i: int| 0 <= i < s.drop_last().len() implies is_digit(#[trigger] s.drop_last()[i]) by {
            assert(s.drop_last()[i] == s[i]);
        }
        lemma_digits_val_nonneg(s.drop_last());
    }
}

/// A text splits exactly when it is an A1 reference whose row number fits a `u32`;
/// then its column is its leading ASCII letters upper-cased and its row the value of
/// the digits after them.
pub proof fn lemma_split_law(s: Seq<char>)
    ensures
        split_spec(s) is Some <==> cell_ref_spec(s) && digits_val(
            s.subrange(alpha_run(s) as int, s.len() as int),
        ) <= u32::MAX,
        split_spec(s) is Some ==> (split_spec(s)->0).0 == upper_seq(s.subrange(0, alpha_run(s) as int)) && (split_spec(
            s,
        )->0).1 as int == digits_val(s.subrange(alpha_run(s) as int, s.len() as int)),
{
    lemma_alpha_run_props(s);
    let k = alpha_run(s) as int;
    let rest = s.subrange(k, s.len() as int);
    if cell_ref_spec(s) {
        assert(is_digit(rest[0]));
        assert(!(rest[0] == '+' || rest[0] == '-'));
        lemma_digits_val_nonneg(rest);
        assert(crate::text::int_of_text(rest) == Some(digits_val(rest)));
        if digits_val(rest) <= u32::MAX {
            assert(i64_of_text(rest) == Some(digits_val(rest) as i64));
            assert(u32_of_text(rest) == Some(digits_val(rest) as u32));
        }
    }
}

fn range_string(cs: &Vec<char>, from: usize, to: usize) -> (r: String)
    requires
        from <= to <= cs@.len(),
    ensures
        r@ == cs@.subrange(from as int, to as int),
{
    let mut out = String::new();
    let mut j: usize = from;
    while j < to
        invariant
            from <= j <= to <= cs@.len(),
            out@ == cs@.subrange(from as int, j as int),
        decreases to - j,
    {
        push_char(&mut out, cs[j]);
        j = j + 1;
        assert(out@ =~= cs@.subrange(from as int, j as int));
    }
    out
}

/// Splits an A1 reference into (column letters upper-cased, row); None when it is
/// not letters followed by ASCII digits of a `u32` row number.
pub fn split_cell_ref(s: &str) -> (r: Option<(String, u32)>)
    ensures
        r is Some <==> split_spec(s@) is Some,
        r matches Some(p) ==> p.0@ == (split_spec(s@)->0).0 && p.1 == (split_spec(s@)->0).1,
{
    let cs = chars_of(s);
    let k = letter_run(&cs);
    if k == 0 || k == cs.len() {
        return None;
    }
    let mut j: usize = k;
    while j < cs.len()
        invariant
            k <= j <= cs@.len(),
            cs@ == s@,
            k == alpha_run(s@),
            forall|m: int| k <= m < j ==> crate::text::is_digit(#[trigger] cs@[m]),
        decreases cs@.len() - j,
    {
        if !('0' <= cs[j] && cs[j] <= '9') {
            proof {
                let rest = s@.subrange(k as int, s@.len() as int);
                assert(rest[j - k] == cs@[j as int]);
                assert(!crate::text::is_digit(rest[j - k]));
                assert(!crate::text::all_digits(rest));
                assert(split_spec(s@) is None);
            }
            return None;
        }
        j = j + 1;
    }
    assert(crate::text::all_digits(cs@.subrange(k as int, cs@.len() as int)));
    let letters = range_string(&cs, 0, k);
    let col = crate::text::upper_string(letters.as_str());
    let rest = range_string(&cs, k, cs.len());
    match parse_u32(rest.as_str()) {
        Some(row) => Some((col, row)),
        None => None,
    }
}

/// The column value of the ASCII letters of a text (other characters skipped).
pub open spec fn alpha_val(s: Seq<char>) -> int
    decreases s.len(),
{
    if s.len() == 0 {
        0
    } else if is_alpha(s.last()) {
        alpha_val(s.drop_last()) * 26 + (upper_char(s.last()) as int - 'A' as int + 1)
    } else {
        alpha_val(s.drop_last())
    }
}

proof fn lemma_alpha_val_prefix(s: Seq<char>, n: int)
    requires
        0 <= n <= s.len(),
    ensures
        0 <= alpha_val(s.subrange(0, n)) <= alpha_val(s),
    decreases s.len() - n,
{
    if n < s.len() {
        lemma_alpha_val_prefix(s, n + 1);
        lemma_alpha_val_nonneg(s.subrange(0, n));
        let p = s.subrange(0, n + 1);
        assert(p.drop_last() =~= s.subrange(0, n));
        if is_alpha(p.last()) {
            assert(upper_char(p.last()) as int - 'A' as int + 1 >= 1);
        }
    } else {
        assert(s.subrange(0, n) =~= s);
        lemma_alpha_val_nonneg(s);
    }
}

proof fn lemma_alpha_val_nonneg(s: Seq<char>)
    ensures
        alpha_val(s) >= 0,
    decreases s.len(),
{
    if s.len() > 0 {
        lemma_alpha_val_nonneg(s.drop_last());
        if is_alpha(s.last()) {
            assert(upper_char(s.last()) as int - 'A' as int + 1 >= 1);
        }
    }
}

/// Column letters to a 0-based index (A → 0, Z → 25, AA → 26); non-letters are
/// skipped and an empty text gives 0.
pub fn col_to_index(col: &str) -> (r: u32)
    requires
        alpha_val(col@) <= u32::MAX,
    ensures
        r == (if alpha_val(col@) >= 1 {
            alpha_val(col@) - 1
        } else {
            0
        }),
{
    let cs = chars_of(col);
    let mut n: u32 = 0;
    let mut i: usize = 0;
    while i < cs.len()
        invariant
            cs@ == col@,
            i <= cs@.len(),
            alpha_val(cs@) <= u32::MAX,
            n == alpha_val(cs@.subrange(0, i as int)),
        decreases cs@.len() - i,
    {
        let c = cs[i];
        proof {
            let p = cs@.subrange(0, i + 1);
            assert(p.drop_last() =~= cs@.subrange(0, i as int));
            assert(p.last() == c);
            lemma_alpha_val_prefix(cs@, i + 1);
        }
        if ('a' <= c && c <= 'z') || ('A' <= c && c <= 'Z') {
            let u = to_upper_char(c);
            n = n * 26 + (u as u32 - 65 + 1);
        }
        i = i + 1;
    }
    proof {
        assert(cs@.subrange(0, cs@.len() as int) =~= cs@);
    }
    if n >= 1 {
        n - 1
    } else {
        0
    }
}

/// The letters of a 1-based column number.
fn letters_u32(n: u32) -> (r: Vec<char>)
    requires
        n >= 1,
    ensures
        r@ == col_letters(n as nat),
    decreases n,
{
    let q = (n - 1) / 26;
    let m = (n - 1) % 26;
    let c = crate::text::char_from_ascii(m + 65);
    if q == 0 {
        let mut v: Vec<char> = Vec::new();
        v.push(c);
        proof {
            assert(col_letters(0) =~= Seq::<char>::empty());
        }
        assert(v@ =~= col_letters(n as nat));
        v
    } else {
        let mut v = letters_u32(q);
        v.push(c);
        v
    }
}

/// A 0-based column index to its letters (0 → A, 26 → AA).
pub fn index_to_col(idx: u32) -> (r: String)
    requires
        idx < u32::MAX,
    ensures
        r@ == col_letters((idx + 1) as nat),
{
    let v = letters_u32(idx + 1);
    string_of(v.as_slice())
}

/// The text of cell (row, 0-based column).
pub open spec fn cell_text(row: int, col0: int) -> Seq<char> {
    col_letters((col0 + 1) as nat) + int_text(row)
}

/// The 0-based column of an upper-cased letters text.
pub open spec fn col_index_spec(col: Seq<char>) -> int {
    if alpha_val(col) >= 1 {
        alpha_val(col) - 1
    } else {
        0
    }
}

/// The cells of a rectangle given by two corners, row by row, columns left to right.
pub open spec fn range_cells(lo_r: int, hi_r: int, lo_c: int, hi_c: int) -> Seq<Seq<char>> {
    Seq::new(
        (hi_r - lo_r + 1) as nat,
        |i: int| Seq::new((hi_c - lo_c + 1) as nat, |j: int| cell_text(lo_r + i, lo_c + j)),
    ).flatten()
}

/// Whether the corners of a range can be expanded (column letters small enough).
pub open spec fn range_ok(s: Seq<char>) -> bool {
    split_spec(s) matches Some(p) ==> alpha_val(p.0) < u32::MAX
}

/// What `expand_range` gives: empty unless both corners are references.
pub open spec fn expand_range_spec(start: Seq<char>, end: Seq<char>) -> Seq<Seq<char>> {
    match (split_spec(start), split_spec(end)) {
        (Some(a), Some(b)) => {
            let ca = col_index_spec(a.0);
            let cb = col_index_spec(b.0);
            let lo_c = if ca <= cb { ca } else { cb };
            let hi_c = if ca <= cb { cb } else { ca };
            let lo_r = if a.1 <= b.1 { a.1 as int } else { b.1 as int };
            let hi_r = if a.1 <= b.1 { b.1 as int } else { a.1 as int };
            range_cells(lo_r, hi_r, lo_c, hi_c)
        },
        _ => Seq::empty(),
    }
}

/// Expands a range `C5:D10` into its cells, row by row (for `SUM(C5:D10)`); empty
/// when a corner is not a reference.
pub fn expand_range(start: &str, end: &str) -> (r: Vec<String>)
    requires
        range_ok(start@),
        range_ok(end@),
    ensures
        r@.map_values(|s: String| s@) == expand_range_spec(start@, end@),
{
    let (a, b) = match (split_cell_ref(start), split_cell_ref(end)) {
        (Some(a), Some(b)) => (a, b),
        _ => {
            let e: Vec<String> = Vec::new();
            proof {
                assert(e@.map_values(|s: String| s@) =~= Seq::<Seq<char>>::empty());
            }
            return e;
        },
    };
    let ci1 = col_to_index(a.0.as_str());
    let ci2 = col_to_index(b.0.as_str());
    let lo_c = if ci1 <= ci2 { ci1 } else { ci2 };
    let hi_c = if ci1 <= ci2 { ci2 } else { ci1 };
    let lo_r = if a.1 <= b.1 { a.1 } else { b.1 };
    let hi_r = if a.1 <= b.1 { b.1 } else { a.1 };
    let ghost rows = Seq::new(
        (hi_r - lo_r + 1) as nat,
        |i: int| Seq::new((hi_c - lo_c + 1) as nat, |j: int| cell_text(lo_r + i, lo_c + j)),
    );
    let mut out: Vec<String> = Vec::new();
    let mut r: u64 = lo_r as u64;
    proof {
        assert(rows.subrange(0, 0).flatten() =~= Seq::<Seq<char>>::empty());
        assert(out@.map_values(|s: String| s@) =~= Seq::<Seq<char>>::empty());
    }
    while r <= hi_r as u64
        invariant
            lo_r <= r <= hi_r + 1,
            lo_r <= hi_r,
            lo_c <= hi_c < u32::MAX,
            rows == Seq::new(
                (hi_r - lo_r + 1) as nat,
                |i: int| Seq::new((hi_c - lo_c + 1) as nat, |j: int| cell_text(lo_r + i, lo_c + j)),
            ),
            out@.map_values(|s: String| s@) == rows.subrange(0, r - lo_r).flatten(),
        decreases hi_r + 1 - r,
    {
        let ghost before = out@.map_values(|s: String| s@);
        let ghost row = rows[r - lo_r];
        let mut c: u64 = lo_c as u64;
        proof {
            assert(before + row.subrange(0, 0) =~= before);
        }
        while c <= hi_c as u64
            invariant
                lo_c <= c <= hi_c + 1,
                hi_c < u32::MAX,
                lo_r <= r <= hi_r,
                row == Seq::new((hi_c - lo_c + 1) as nat, |j: int| cell_text(r as int, lo_c + j)),
                out@.map_values(|s: String| s@) == before + row.subrange(0, c - lo_c),
            decreases hi_c + 1 - c,
        {
            let mut t = index_to_col(c as u32);
            append_str(&mut t, int_string(r as i64).as_str());
            let ghost b2 = out@.map_values(|s: String| s@);
            out.push(t);
            proof {
                assert(t@ == cell_text(r as int, c as int));
                assert(out@.map_values(|s: String| s@) =~= b2.push(t@));
                assert(row[c - lo_c] == cell_text(r as int, c as int));
                assert(before + row.subrange(0, c - lo_c + 1) =~= (before + row.subrange(0, c - lo_c)).push(row[c - lo_c]));
            }
            c = c + 1;
        }
        proof {
            assert(row.subrange(0, hi_c - lo_c + 1) =~= row);
            let p = rows.subrange(0, r - lo_r + 1);
            assert(p =~= rows.subrange(0, r - lo_r) + seq![row]);
            vstd::seq_lib::lemma_flatten_concat(rows.subrange(0, r - lo_r), seq![row]);
            seq![row].lemma_flatten_one_element();
        }
        r = r + 1;
    }
    proof {
        assert(rows.subrange(0, hi_r - lo_r + 1) =~= rows);
    }
    out
}

/// Whether the column value of the letters of a text is below `u32::MAX`.
pub fn alpha_val_below_max(col: &str) -> (r: bool)
    ensures
        r == (alpha_val(col@) < u32::MAX),
{
    let cs = chars_of(col);
    let mut n: u64 = 0;
    let mut capped = false;
    let mut i: usize = 0;
    while i < cs.len()
        invariant
            cs@ == col@,
            i <= cs@.len(),
            !capped ==> n == alpha_val(cs@.subrange(0, i as int)) && n < u32::MAX,
            capped ==> alpha_val(cs@.subrange(0, i as int)) >= u32::MAX,
        decreases cs@.len() - i,
    {
        let c = cs[i];
        proof {
            let p = cs@.subrange(0, i + 1);
            assert(p.drop_last() =~= cs@.subrange(0, i as int));
            assert(p.last() == c);
            lemma_alpha_val_nonneg(cs@.subrange(0, i as int));
            if is_alpha(c) {
                assert(upper_char(c) as int - 'A' as int + 1 >= 1);
            }
        }
        if !capped && (('a' <= c && c <= 'z') || ('A' <= c && c <= 'Z')) {
            let u = to_upper_char(c);
            let v = n * 26 + (u as u32 - 65 + 1) as u64;
            if v >= 4294967295 {
                capped = true;
            } else {
                n = v;
            }
        }
        i = i + 1;
    }
    proof {
        assert(cs@.subrange(0, cs@.len() as int) =~= cs@);
    }
    !capped
}

} // verus!
