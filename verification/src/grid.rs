//! A1 cell addresses: column letters, parsing, and the shift that inserting or
//! deleting rows and columns applies to an address.
use vstd::prelude::*;
use crate::text::{
    nat_digits, digit_char, digits_val, all_digits, is_digit, int_of_text,
    chars_of, string_of, push_char, append_str, int_string, int_text, parse_i64, i64_of_text,
    str_eq, upper_char, char_from_ascii,
};

verus! {

/// An ASCII letter.
pub open spec fn is_alpha(c: char) -> bool {
    ('a' <= c && c <= 'z') || ('A' <= c && c <= 'Z')
}

/// The number of leading ASCII letters.
pub open spec fn alpha_run(s: Seq<char>) -> nat
    decreases s.len(),
{
    if s.len() == 0 || !is_alpha(s[0]) {
        0
    } else {
        1 + alpha_run(s.subrange(1, s.len() as int))
    }
}

/// The 1-based column number letters spell (A = 1, Z = 26, AA = 27; case ignored).
pub open spec fn letters_val(s: Seq<char>) -> int
    decreases s.len(),
{
    if s.len() == 0 {
        0
    } else {
        letters_val(s.drop_last()) * 26 + (upper_char(s.last()) as int - 'A' as int + 1)
    }
}

/// The letters of a 1-based column number (bijective base 26).
pub open spec fn col_letters(n: nat) -> Seq<char>
    decreases n,
{
    if n == 0 {
        Seq::empty()
    } else {
        col_letters(((n - 1) / 26) as nat).push((((n - 1) % 26) + 65) as char)
    }
}

/// The letters of a 0-based column index (`A` for a negative one).
pub open spec fn col_text(col0: int) -> Seq<char> {
    if col0 >= 0 {
        col_letters((col0 + 1) as nat)
    } else {
        seq!['A']
    }
}

/// The anchor `(row, column)` of an A1 address: the leading letters as a 1-based
/// column, the rest as a row number (0 when it is not a number).
pub open spec fn anchor_spec(cell: Seq<char>) -> (int, int) {
    let k = alpha_run(cell) as int;
    let row = match i64_of_text(cell.subrange(k, cell.len() as int)) {
        Some(v) => v as int,
        None => 0,
    };
    (row, letters_val(cell.subrange(0, k)))
}

/// The 0-based `(row, column)` of an A1 address; None without letters, without a
/// row number, or with a row number below 1.
pub open spec fn a1_spec(cell: Seq<char>) -> Option<(int, int)> {
    let k = alpha_run(cell) as int;
    if k == 0 {
        None
    } else {
        match i64_of_text(cell.subrange(k, cell.len() as int)) {
            Some(row) => if row < 1 {
                None
            } else {
                Some((row - 1, letters_val(cell.subrange(0, k)) - 1))
            },
            None => None,
        }
    }
}

/// Whether the column value of the leading letters fits in an `i64`.
pub open spec fn letters_fit(cell: Seq<char>) -> bool {
    letters_val(cell.subrange(0, alpha_run(cell) as int)) <= i64::MAX
}

pub proof fn lemma_alpha_run(s: Seq<char>)
    ensures
        alpha_run(s) <= s.len(),
        forall|i: int| 0 <= i < alpha_run(s) ==> is_alpha(#[trigger] s[i]),
        alpha_run(s) < s.len() ==> !is_alpha(s[alpha_run(s) as int]),
    decreases s.len(),
{
    if s.len() > 0 && is_alpha(s[0]) {
        let t = s.subrange(1, s.len() as int);
        lemma_alpha_run(t);
        assert forall|i: int| 0 <= i < alpha_run(s) implies is_alpha(#[trigger] s[i]) by {
            if i > 0 {
                assert(s[i] == t[i - 1]);
            }
        }
    }
}

proof fn lemma_letters_nonneg(s: Seq<char>)
    requires
        forall|i: int| 0 <= i < s.len() ==> is_alpha(#[trigger] s[i]),
    ensures
        letters_val(s) >= 0,
        s.len() > 0 ==> letters_val(s) >= letters_val(s.drop_last()),
    decreases s.len(),
{
    if s.len() > 0 {
        lemma_letters_nonneg(s.drop_last());
        let c = s.last();
        assert(is_alpha(s[s.len() - 1]));
        assert(upper_char(c) as int - 'A' as int + 1 >= 1);
    }
}

/// Leading letters as a 1-based column number and the index after them.
fn leading_column(cs: &Vec<char>) -> (r: (i64, usize))
    requires
        letters_fit(cs@),
    ensures
        r.1 == alpha_run(cs@),
        r.1 <= cs@.len(),
        r.0 == letters_val(cs@.subrange(0, r.1 as int)),
{
    proof {
        lemma_alpha_run(cs@);
    }
    let ghost k = alpha_run(cs@) as int;
    let mut i: usize = 0;
    let mut col: i64 = 0;
    while i < cs.len() && (('a' <= cs[i] && cs[i] <= 'z') || ('A' <= cs[i] && cs[i] <= 'Z'))
        invariant
            k == alpha_run(cs@),
            k <= cs@.len(),
            forall|j: int| 0 <= j < k ==> is_alpha(#[trigger] cs@[j]),
            k < cs@.len() ==> !is_alpha(cs@[k]),
            letters_val(cs@.subrange(0, k)) <= i64::MAX,
            i <= k,
            col == letters_val(cs@.subrange(0, i as int)),
        decreases cs@.len() - i,
    {
        let c = cs[i];
        let u = crate::text::to_upper_char(c);
        proof {
            let p = cs@.subrange(0, i + 1);
            assert(p.drop_last() =~= cs@.subrange(0, i as int));
            assert(p.last() == c);
            assert(i < k);
            // the value of a longer prefix bounds the shorter one
            lemma_prefix_letters_bound(cs@.subrange(0, k), i + 1);
            assert(cs@.subrange(0, k).subrange(0, i + 1) =~= p);
            assert(upper_char(c) as int - 'A' as int + 1 >= 1);
        }
        col = col * 26 + ((u as u32 - 65) as i64 + 1);
        i = i + 1;
    }
    (col, i)
}

proof fn lemma_prefix_letters_bound(s: Seq<char>, n: int)
    requires
        0 <= n <= s.len(),
        forall|i: int| 0 <= i < s.len() ==> is_alpha(#[trigger] s[i]),
    ensures
        letters_val(s.subrange(0, n)) <= letters_val(s),
        letters_val(s.subrange(0, n)) >= 0,
    decreases s.len() - n,
{
    assert forall|i: int| 0 <= i < n implies is_alpha(#[trigger] s.subrange(0, n)[i]) by {
        assert(s.subrange(0, n)[i] == s[i]);
    }
    lemma_letters_nonneg(s.subrange(0, n));
    if n < s.len() {
        lemma_prefix_letters_bound(s, n + 1);
        let p = s.subrange(0, n + 1);
        assert(p.drop_last() =~= s.subrange(0, n));
        assert forall|i: int| 0 <= i < n + 1 implies is_alpha(#[trigger] p[i]) by {
            assert(p[i] == s[i]);
        }
        lemma_letters_nonneg(p);
    } else {
        assert(s.subrange(0, n) =~= s);
    }
}

/// The characters from index `i` on, as a string.
pub(crate) fn tail_string(cs: &Vec<char>, i: usize) -> (r: String)
    requires
        i <= cs@.len(),
    ensures
        r@ == cs@.subrange(i as int, cs@.len() as int),
{
    let mut out = String::new();
    let mut j: usize = i;
    while j < cs.len()
        invariant
            i <= j <= cs@.len(),
            out@ == cs@.subrange(i as int, j as int),
        decreases cs@.len() - j,
    {
        push_char(&mut out, cs[j]);
        j = j + 1;
        assert(out@ =~= cs@.subrange(i as int, j as int));
    }
    out
}

/// The anchor `(row, column)` of an A1 address (1-based; row 0 when the digits do
/// not form a number).
pub fn cell_ref_anchor(cell: &str) -> (r: (i64, i64))
    requires
        letters_fit(cell@),
    ensures
        r.0 == anchor_spec(cell@).0,
        r.1 == anchor_spec(cell@).1,
{
    let cs = chars_of(cell);
    let (col, i) = leading_column(&cs);
    let rest = tail_string(&cs, i);
    proof {
        assert(rest@ =~= cell@.subrange(i as int, cell@.len() as int));
    }
    let row = match parse_i64(rest.as_str()) {
        Some(v) => v,
        None => 0,
    };
    (row, col)
}

/// The 0-based `(row, column)` of an A1 address; None when it is not one.
pub fn parse_a1(cell: &str) -> (r: Option<(i64, i64)>)
    requires
        letters_fit(cell@),
    ensures
        r is Some <==> a1_spec(cell@) is Some,
        r matches Some(p) ==> p.0 == (a1_spec(cell@)->0).0 && p.1 == (a1_spec(cell@)->0).1,
{
    let cs = chars_of(cell);
    let (col, i) = leading_column(&cs);
    if i == 0 {
        return None;
    }
    let rest = tail_string(&cs, i);
    proof {
        assert(rest@ =~= cell@.subrange(i as int, cell@.len() as int));
        lemma_alpha_run(cell@);
        assert forall|j: int| 0 <= j < i implies is_alpha(#[trigger] cell@.subrange(0, i as int)[j]) by {
            assert(cell@.subrange(0, i as int)[j] == cell@[j]);
        }
        lemma_letters_nonneg(cell@.subrange(0, i as int));
        let p = cell@.subrange(0, i as int);
        assert(letters_val(p) >= letters_val(p.drop_last()));
        lemma_letters_nonneg(p.drop_last());
        assert(upper_char(p.last()) as int - 'A' as int + 1 >= 1);
    }
    let row = match parse_i64(rest.as_str()) {
        Some(v) => v,
        None => {
            return None;
        },
    };
    if row < 1 {
        return None;
    }
    Some((row - 1, col - 1))
}

/// Letters of a 1-based column number.
fn letters_of(n: i64) -> (r: Vec<char>)
    requires
        n >= 1,
    ensures
        r@ == col_letters(n as nat),
    decreases n,
{
    let q = (n - 1) / 26;
    let m = (n - 1) % 26;
    let c = char_from_ascii((m as u32) + 65);
    if q == 0 {
        let mut v: Vec<char> = Vec::new();
        v.push(c);
        proof {
            assert(col_letters(0) =~= Seq::<char>::empty());
        }
        assert(v@ =~= col_letters(n as nat));
        v
    } else {
        let mut v = letters_of(q);
        v.push(c);
        v
    }
}

/// The letters of a 0-based column index (0 → A, 25 → Z, 26 → AA).
pub fn col_to_letters(col0: i64) -> (r: String)
    requires
        col0 < i64::MAX,
    ensures
        r@ == col_text(col0 as int),
{
    if col0 >= 0 {
        let v = letters_of(col0 + 1);
        string_of(v.as_slice())
    } else {
        let mut s = String::new();
        push_char(&mut s, 'A');
        assert(s@ =~= seq!['A']);
        s
    }
}

/// Where a 0-based index goes when `count` rows (or columns) are inserted or
/// deleted at `index`.
pub open spec fn shift_spec(pos: int, index: int, count: int, is_insert: bool) -> Option<int> {
    if is_insert {
        Some(if pos >= index { pos + count } else { pos })
    } else if pos >= index && pos < index + count {
        None
    } else if pos >= index + count {
        Some(pos - count)
    } else {
        Some(pos)
    }
}

/// The new 0-based index after inserting or deleting `count` at `index`; None when
/// the index falls in the deleted range.
pub fn struct_shift_index(pos: i64, index: i64, count: i64, is_insert: bool) -> (r: Option<i64>)
    requires
        i64::MIN <= index + count <= i64::MAX,
        is_insert && pos >= index ==> pos + count <= i64::MAX,
        !is_insert ==> i64::MIN <= pos - count <= i64::MAX,
    ensures
        r == (match shift_spec(pos as int, index as int, count as int, is_insert) {
            Some(v) => Some(v as i64),
            None => None,
        }),
{
    if is_insert {
        return Some(if pos >= index { pos + count } else { pos });
    }
    if pos >= index && pos < index + count {
        return None;
    }
    if pos >= index + count {
        return Some(pos - count);
    }
    Some(pos)
}

/// The A1 text of a 0-based `(row, column)`.
pub open spec fn a1_text(row0: int, col0: int) -> Seq<char> {
    col_text(col0) + int_text(row0 + 1)
}

/// An A1 address shifted by a row/column insertion or deletion (None when it is not
/// an address or falls in the deleted range).
pub open spec fn shift_ref_spec(cell: Seq<char>, axis_is_row: bool, index: int, count: int, is_insert: bool) -> Option<
    Seq<char>,
> {
    match a1_spec(cell) {
        Some(p) => if axis_is_row {
            match shift_spec(p.0, index, count, is_insert) {
                Some(nr) => Some(a1_text(nr, p.1)),
                None => None,
            }
        } else {
            match shift_spec(p.1, index, count, is_insert) {
                Some(nc) => Some(a1_text(p.0, nc)),
                None => None,
            }
        },
        None => None,
    }
}

/// Shifts an A1 address for a structural edit (rows when `axis_is_row`, else
/// columns); None when it is not an address or is deleted.
pub fn shift_cell_ref(cell: &str, axis_is_row: bool, index: i64, count: i64, is_insert: bool) -> (r: Option<String>)
    requires
        letters_fit(cell@),
        0 <= count,
        index + count <= i64::MAX - 1,
        a1_spec(cell@) matches Some(p) ==> p.0 + count < i64::MAX - 1 && p.1 + count < i64::MAX - 1,
    ensures
        r is Some <==> shift_ref_spec(cell@, axis_is_row, index as int, count as int, is_insert) is Some,
        r matches Some(s) ==> s@ == shift_ref_spec(cell@, axis_is_row, index as int, count as int, is_insert)->0,
{
    let (row0, col0) = match parse_a1(cell) {
        Some(p) => p,
        None => {
            return None;
        },
    };
    proof {
        lemma_a1_nonneg(cell@);
    }
    if axis_is_row {
        let nr = match struct_shift_index(row0, index, count, is_insert) {
            Some(v) => v,
            None => {
                return None;
            },
        };
        let mut s = col_to_letters(col0);
        let n = int_string(nr + 1);
        append_str(&mut s, n.as_str());
        Some(s)
    } else {
        let nc = match struct_shift_index(col0, index, count, is_insert) {
            Some(v) => v,
            None => {
                return None;
            },
        };
        let mut s = col_to_letters(nc);
        let n = int_string(row0 + 1);
        append_str(&mut s, n.as_str());
        Some(s)
    }
}

proof fn lemma_a1_nonneg(cell: Seq<char>)
    ensures
        a1_spec(cell) matches Some(p) ==> p.0 >= 0 && p.1 >= 0,
{
    let k = alpha_run(cell) as int;
    lemma_alpha_run(cell);
    if k > 0 {
        let p = cell.subrange(0, k);
        assert forall|j: int| 0 <= j < k implies is_alpha(#[trigger] p[j]) by {
            assert(p[j] == cell[j]);
        }
        lemma_letters_nonneg(p);
        lemma_letters_nonneg(p.drop_last());
        assert(upper_char(p.last()) as int - 'A' as int + 1 >= 1);
    }
}

/// Whether an operation type is structural (moves other objects' addresses and is
/// checked strictly): row/column insertion and deletion, region and sheet changes.
pub open spec fn is_structural_spec(t: Seq<char>) -> bool {
    t == "insertRow"@ || t == "deleteRow"@ || t == "insertCol"@ || t == "deleteCol"@ || t
        == "addRegion"@ || t == "delRegion"@ || t == "addSheet"@ || t == "renameSheet"@
}

/// Whether an operation type is structural.
pub fn is_structural(op_type: &str) -> (r: bool)
    ensures
        r == is_structural_spec(op_type@),
{
    str_eq(op_type, "insertRow") || str_eq(op_type, "deleteRow") || str_eq(op_type, "insertCol")
        || str_eq(op_type, "deleteCol") || str_eq(op_type, "addRegion") || str_eq(op_type, "delRegion")
        || str_eq(op_type, "addSheet") || str_eq(op_type, "renameSheet")
}

proof fn lemma_col_letters(n: nat)
    requires
        n >= 1,
    ensures
        col_letters(n).len() >= 1,
        forall|i: int| 0 <= i < col_letters(n).len() ==> 'A' <= #[trigger] col_letters(n)[i] && col_letters(n)[i] <= 'Z',
        letters_val(col_letters(n)) == n,
    decreases n,
{
    let q = ((n - 1) / 26) as nat;
    let ch = (((n - 1) % 26) + 65) as char;
    let l = col_letters(n);
    assert(l == col_letters(q).push(ch));
    assert(l.drop_last() == col_letters(q));
    assert(ch as int == ((n - 1) % 26) + 65);
    assert(upper_char(ch) == ch);
    vstd::arithmetic::div_mod::lemma_fundamental_div_mod(n - 1, 26);
    assert(letters_val(l) == letters_val(col_letters(q)) * 26 + (ch as int - 65 + 1));
    if q >= 1 {
        lemma_col_letters(q);
        assert forall|i: int| 0 <= i < l.len() implies 'A' <= #[trigger] l[i] && l[i] <= 'Z' by {
            if i < l.len() - 1 {
                assert(l[i] == col_letters(q)[i]);
            }
        }
    } else {
        assert(col_letters(q) =~= Seq::<char>::empty());
    }
}

proof fn lemma_nat_digits(n: nat)
    ensures
        nat_digits(n).len() >= 1,
        all_digits(nat_digits(n)),
        digits_val(nat_digits(n)) == n,
    decreases n,
{
    if n >= 10 {
        lemma_nat_digits(n / 10);
        let d = nat_digits(n);
        assert(d.drop_last() == nat_digits(n / 10));
        assert((n % 10) % 10 == n % 10);
        assert(d.last() == digit_char(n % 10));
        assert(digit_char(n % 10) as int == (n % 10) % 10 + 48);
        vstd::arithmetic::div_mod::lemma_fundamental_div_mod(n as int, 10);
        assert(digits_val(d) == digits_val(nat_digits(n / 10)) * 10 + (d.last() as int - 48));
        assert forall|i: int| 0 <= i < d.len() implies is_digit(#[trigger] d[i]) by {
            if i < d.len() - 1 {
                assert(d[i] == nat_digits(n / 10)[i]);
            }
        }
    } else {
        assert(nat_digits(n).drop_last() =~= Seq::<char>::empty());
        assert(n % 10 == n);
        assert(nat_digits(n).last() == digit_char(n));
        assert(digit_char(n) as int == (n % 10) + 48);
        assert(digits_val(nat_digits(n)) == digits_val(nat_digits(n).drop_last()) * 10 + (nat_digits(n).last() as int - 48));
    }
}

proof fn lemma_alpha_run_concat(l: Seq<char>, d: Seq<char>)
    requires
        forall|i: int| 0 <= i < l.len() ==> is_alpha(#[trigger] l[i]),
        d.len() > 0 ==> !is_alpha(d[0]),
    ensures
        alpha_run(l + d) == l.len(),
    decreases l.len(),
{
    if l.len() > 0 {
        let t = l.subrange(1, l.len() as int);
        assert forall|i: int| 0 <= i < t.len() implies is_alpha(#[trigger] t[i]) by {
            assert(t[i] == l[i + 1]);
        }
        lemma_alpha_run_concat(t, d);
        assert((l + d).subrange(1, (l + d).len() as int) =~= t + d);
        assert((l + d)[0] == l[0]);
    } else {
        assert(l + d =~= d);
    }
}

/// Formatting a 0-based position as A1 text and parsing it back gives the position.
pub proof fn lemma_a1_roundtrip(row0: int, col0: int)
    requires
        0 <= row0 < i64::MAX,
        0 <= col0 < i64::MAX,
    ensures
        a1_spec(a1_text(row0, col0)) == Some((row0, col0)),
        anchor_spec(a1_text(row0, col0)) == (row0 + 1, col0 + 1),
        letters_fit(a1_text(row0, col0)),
{
    let l = col_letters((col0 + 1) as nat);
    let d = nat_digits((row0 + 1) as nat);
    lemma_col_letters((col0 + 1) as nat);
    lemma_nat_digits((row0 + 1) as nat);
    assert(int_text(row0 + 1) == d);
    assert(col_text(col0) == l);
    let cell = l + d;
    assert(a1_text(row0, col0) == cell);
    assert forall|i: int| 0 <= i < l.len() implies is_alpha(#[trigger] l[i]) by {
        assert('A' <= l[i] && l[i] <= 'Z');
    }
    assert(is_digit(d[0]));
    lemma_alpha_run_concat(l, d);
    let k = l.len() as int;
    assert(cell.subrange(0, k) =~= l);
    assert(cell.subrange(k, cell.len() as int) =~= d);
    assert(d[0] != '+' && d[0] != '-');
    assert(int_of_text(d) == Some(row0 + 1));
}

/// Inserting `count` at `index` and then deleting the same range gives every index
/// back.
pub proof fn lemma_insert_then_delete(pos: int, index: int, count: int)
    requires
        count >= 0,
    ensures
        shift_spec(shift_spec(pos, index, count, true)->0, index, count, false) == Some(pos),
{
}

/// Deleting a range moves every index outside it by the same amount an insertion of
/// that range at the same place moves it back.
pub proof fn lemma_delete_then_insert(pos: int, index: int, count: int)
    requires
        count >= 0,
        shift_spec(pos, index, count, false) is Some,
    ensures
        shift_spec(shift_spec(pos, index, count, false)->0, index, count, true) == Some(pos),
{
}

/// The letters of any formatted address (a negative position included) spell a
/// column that fits.
proof fn lemma_a1_text_fits(row0: int, col0: int)
    requires
        col0 < i64::MAX,
    ensures
        letters_fit(a1_text(row0, col0)),
{
    let l = col_text(col0);
    let d = int_text(row0 + 1);
    if col0 >= 0 {
        lemma_col_letters((col0 + 1) as nat);
    } else {
        assert(letters_val(seq!['A']) == letters_val(Seq::<char>::empty()) * 26 + 1) by {
            assert(seq!['A'].drop_last() =~= Seq::<char>::empty());
        }
        assert(upper_char('A') == 'A');
    }
    assert forall|i: int| 0 <= i < l.len() implies is_alpha(#[trigger] l[i]) by {
        if col0 >= 0 {
            assert('A' <= l[i] && l[i] <= 'Z');
        }
    }
    if row0 + 1 < 0 {
        assert(d[0] == '-');
    } else {
        lemma_nat_digits((row0 + 1) as nat);
        assert(is_digit(d[0]));
    }
    lemma_alpha_run_concat(l, d);
    assert((l + d).subrange(0, l.len() as int) =~= l);
    assert(a1_text(row0, col0) == l + d);
}

/// A shifted address is again an address whose column fits.
pub proof fn lemma_shifted_fits(cell: Seq<char>, axis_is_row: bool, index: int, count: int, is_insert: bool)
    requires
        0 <= count,
        a1_spec(cell) matches Some(p) ==> p.0 + count < i64::MAX - 1 && p.1 + count < i64::MAX - 1,
    ensures
        shift_ref_spec(cell, axis_is_row, index, count, is_insert) matches Some(t) ==> letters_fit(t),
{
    lemma_a1_nonneg(cell);
    if a1_spec(cell) is Some {
        let p = a1_spec(cell)->0;
        if axis_is_row {
            if shift_spec(p.0, index, count, is_insert) is Some {
                lemma_a1_text_fits(shift_spec(p.0, index, count, is_insert)->0, p.1);
            }
        } else {
            if shift_spec(p.1, index, count, is_insert) is Some {
                lemma_a1_text_fits(p.0, shift_spec(p.1, index, count, is_insert)->0);
            }
        }
    }
}

} // verus!
