//! Text helpers over the characters of strings.
use vstd::prelude::*;
use vstd::string::*;

verus! {

/// The characters of a string.
pub fn chars_of(s: &str) -> (r: Vec<char>)
    ensures
        r@ == s@,
{
    let n = s.unicode_len();
    let mut out: Vec<char> = Vec::new();
    let mut i: usize = 0;
    while i < n
        invariant
            n == s@.len(),
            i <= n,
            out@ == s@.subrange(0, i as int),
        decreases n - i,
    {
        let c = s.get_char(i);
        out.push(c);
        i = i + 1;
        assert(out@ =~= s@.subrange(0, i as int));
    }
    assert(out@ =~= s@);
    out
}

/// `String::push`: appends one character.
#[verifier::external_body]
pub fn push_char(s: &mut String, c: char)
    ensures
        final(s)@ == old(s)@.push(c),
{
    s.push(c);
}

/// A string made of the given characters.
pub fn string_of(v: &[char]) -> (r: String)
    ensures
        r@ == v@,
{
    let mut out = String::new();
    let mut i: usize = 0;
    while i < v.len()
        invariant
            i <= v@.len(),
            out@ == v@.subrange(0, i as int),
        decreases v@.len() - i,
    {
        push_char(&mut out, v[i]);
        i = i + 1;
        assert(out@ =~= v@.subrange(0, i as int));
    }
    assert(out@ =~= v@);
    out
}

/// A copy of a string.
pub fn copy_str(s: &str) -> (r: String)
    ensures
        r@ == s@,
{
    String::from_str(s)
}

/// ASCII letters to lower case; every other character unchanged.
pub open spec fn lower_char(c: char) -> char {
    if 'A' <= c && c <= 'Z' {
        ((c as u32) + 32) as char
    } else {
        c
    }
}

/// ASCII letters to upper case; every other character unchanged.
pub open spec fn upper_char(c: char) -> char {
    if 'a' <= c && c <= 'z' {
        ((c as u32) - 32) as char
    } else {
        c
    }
}

pub open spec fn lower_seq(s: Seq<char>) -> Seq<char> {
    s.map_values(|c: char| lower_char(c))
}

pub open spec fn upper_seq(s: Seq<char>) -> Seq<char> {
    s.map_values(|c: char| upper_char(c))
}

pub fn to_lower_char(c: char) -> (r: char)
    ensures
        r == lower_char(c),
{
    if 'A' <= c && c <= 'Z' {
        let u: u32 = (c as u32) + 32;
        assert(0x61 <= u <= 0x7a);
        char_from_ascii(u)
    } else {
        c
    }
}

pub fn to_upper_char(c: char) -> (r: char)
    ensures
        r == upper_char(c),
{
    if 'a' <= c && c <= 'z' {
        let u: u32 = (c as u32) - 32;
        char_from_ascii(u)
    } else {
        c
    }
}

/// The character with an ASCII code.
pub fn char_from_ascii(u: u32) -> (r: char)
    requires
        u < 128,
    ensures
        r == u as char,
        r as u32 == u,
{
    let b: u8 = u as u8;
    b as char
}

/// The ASCII-lower-cased characters of a string (`str::to_ascii_lowercase`).
pub fn lower_chars(s: &str) -> (r: Vec<char>)
    ensures
        r@ == lower_seq(s@),
{
    let cs = chars_of(s);
    let mut out: Vec<char> = Vec::new();
    let mut i: usize = 0;
    while i < cs.len()
        invariant
            i <= cs@.len(),
            cs@ == s@,
            out@ == lower_seq(cs@.subrange(0, i as int)),
        decreases cs@.len() - i,
    {
        out.push(to_lower_char(cs[i]));
        i = i + 1;
        assert(out@ =~= lower_seq(cs@.subrange(0, i as int)));
    }
    assert(cs@.subrange(0, cs@.len() as int) =~= cs@);
    out
}

/// ASCII upper-case copy of a string (`str::to_ascii_uppercase`).
pub fn upper_string(s: &str) -> (r: String)
    ensures
        r@ == upper_seq(s@),
{
    let cs = chars_of(s);
    let mut out = String::new();
    let mut i: usize = 0;
    while i < cs.len()
        invariant
            i <= cs@.len(),
            cs@ == s@,
            out@ == upper_seq(cs@.subrange(0, i as int)),
        decreases cs@.len() - i,
    {
        push_char(&mut out, to_upper_char(cs[i]));
        i = i + 1;
        assert(out@ =~= upper_seq(cs@.subrange(0, i as int)));
    }
    assert(cs@.subrange(0, cs@.len() as int) =~= cs@);
    out
}

/// ASCII lower-case copy of a string.
pub fn lower_string(s: &str) -> (r: String)
    ensures
        r@ == lower_seq(s@),
{
    let v = lower_chars(s);
    string_of(v.as_slice())
}

/// Whether two character sequences are equal.
pub fn chars_eq(a: &[char], b: &[char]) -> (r: bool)
    ensures
        r == (a@ == b@),
{
    if a.len() != b.len() {
        return false;
    }
    let mut i: usize = 0;
    while i < a.len()
        invariant
            a@.len() == b@.len(),
            i <= a@.len(),
            forall|j: int| 0 <= j < i ==> a@[j] == b@[j],
        decreases a@.len() - i,
    {
        if a[i] != b[i] {
            return false;
        }
        i = i + 1;
    }
    assert(a@ =~= b@);
    true
}

/// Whether `s` begins with `p`.
pub open spec fn has_prefix(s: Seq<char>, p: Seq<char>) -> bool {
    p.len() <= s.len() && s.subrange(0, p.len() as int) == p
}

/// `str::starts_with`.
pub fn starts_with(s: &str, p: &str) -> (r: bool)
    ensures
        r == has_prefix(s@, p@),
{
    let a = chars_of(s);
    let b = chars_of(p);
    if b.len() > a.len() {
        return false;
    }
    let mut i: usize = 0;
    while i < b.len()
        invariant
            a@ == s@,
            b@ == p@,
            b@.len() <= a@.len(),
            i <= b@.len(),
            forall|j: int| 0 <= j < i ==> a@[j] == b@[j],
        decreases b@.len() - i,
    {
        if a[i] != b[i] {
            assert(a@.subrange(0, b@.len() as int)[i as int] != b@[i as int]);
            return false;
        }
        i = i + 1;
    }
    assert(a@.subrange(0, b@.len() as int) =~= b@);
    true
}

/// Whether two strings are equal.
pub fn str_eq(a: &str, b: &str) -> (r: bool)
    ensures
        r == (a@ == b@),
{
    let x = chars_of(a);
    let y = chars_of(b);
    chars_eq(x.as_slice(), y.as_slice())
}

/// Lexicographic order on characters by code point (the order of `str`).
pub open spec fn seq_lt(a: Seq<char>, b: Seq<char>) -> bool
    decreases a.len(),
{
    if b.len() == 0 {
        false
    } else if a.len() == 0 {
        true
    } else if a[0] < b[0] {
        true
    } else if a[0] == b[0] {
        seq_lt(a.drop_first(), b.drop_first())
    } else {
        false
    }
}

pub proof fn lemma_seq_lt_irrefl(a: Seq<char>)
    ensures
        !seq_lt(a, a),
    decreases a.len(),
{
    if a.len() > 0 {
        lemma_seq_lt_irrefl(a.drop_first());
    }
}

pub proof fn lemma_seq_lt_trans(a: Seq<char>, b: Seq<char>, c: Seq<char>)
    requires
        seq_lt(a, b),
        seq_lt(b, c),
    ensures
        seq_lt(a, c),
    decreases a.len(),
{
    if a.len() > 0 && b.len() > 0 && c.len() > 0 {
        if a[0] == b[0] && b[0] == c[0] {
            lemma_seq_lt_trans(a.drop_first(), b.drop_first(), c.drop_first());
        }
    }
}

pub proof fn lemma_seq_lt_total(a: Seq<char>, b: Seq<char>)
    ensures
        seq_lt(a, b) || seq_lt(b, a) || a == b,
    decreases a.len(),
{
    if a.len() > 0 && b.len() > 0 {
        if a[0] == b[0] {
            lemma_seq_lt_total(a.drop_first(), b.drop_first());
            if a.drop_first() == b.drop_first() {
                assert(a =~= seq![a[0]] + a.drop_first());
                assert(b =~= seq![b[0]] + b.drop_first());
            }
        }
    } else if a.len() == 0 && b.len() == 0 {
        assert(a =~= b);
    }
}

pub proof fn lemma_seq_lt_asym(a: Seq<char>, b: Seq<char>)
    requires
        seq_lt(a, b),
    ensures
        !seq_lt(b, a),
{
    if seq_lt(b, a) {
        lemma_seq_lt_trans(a, b, a);
        lemma_seq_lt_irrefl(a);
    }
}

/// `a < b` for strings.
pub fn str_lt(a: &str, b: &str) -> (r: bool)
    ensures
        r == seq_lt(a@, b@),
{
    let x = chars_of(a);
    let y = chars_of(b);
    chars_lt(x.as_slice(), y.as_slice())
}

/// Lexicographic `<` on character slices.
pub fn chars_lt(a: &[char], b: &[char]) -> (r: bool)
    ensures
        r == seq_lt(a@, b@),
{
    let mut i: usize = 0;
    assert(a@.skip(0) =~= a@);
    assert(b@.skip(0) =~= b@);
    while i < a.len() && i < b.len()
        invariant
            i <= a@.len(),
            i <= b@.len(),
            a@.subrange(0, i as int) == b@.subrange(0, i as int),
            seq_lt(a@, b@) == seq_lt(a@.skip(i as int), b@.skip(i as int)),
        decreases a@.len() - i,
    {
        let ca = a[i];
        let cb = b[i];
        if ca < cb {
            return true;
        }
        if ca != cb {
            return false;
        }
        proof {
            assert(a@.skip(i as int).drop_first() =~= a@.skip(i + 1));
            assert(b@.skip(i as int).drop_first() =~= b@.skip(i + 1));
            assert(a@.subrange(0, i + 1) =~= a@.subrange(0, i as int).push(a@[i as int]));
            assert(b@.subrange(0, i + 1) =~= b@.subrange(0, i as int).push(b@[i as int]));
            assert(a@[i as int] == b@[i as int]);
        }
        i = i + 1;
    }
    i < b.len()
}

/// The decimal digits of a natural number.
pub open spec fn nat_digits(n: nat) -> Seq<char>
    decreases n,
{
    if n < 10 {
        seq![digit_char(n)]
    } else {
        nat_digits(n / 10).push(digit_char(n % 10))
    }
}

pub open spec fn digit_char(d: nat) -> char {
    ((d % 10) + 48) as char
}

/// The decimal text of an integer (`i64`'s `Display`).
pub open spec fn int_text(n: int) -> Seq<char> {
    if n < 0 {
        seq!['-'] + nat_digits((-n) as nat)
    } else {
        nat_digits(n as nat)
    }
}

fn digits_u64(n: u64) -> (r: Vec<char>)
    ensures
        r@ == nat_digits(n as nat),
    decreases n,
{
    if n < 10 {
        let c = char_from_ascii((n as u32) + 48);
        let mut v: Vec<char> = Vec::new();
        v.push(c);
        assert(v@ =~= nat_digits(n as nat));
        v
    } else {
        let mut v = digits_u64(n / 10);
        let d: u64 = n % 10;
        let c = char_from_ascii((d as u32) + 48);
        v.push(c);
        v
    }
}

/// The decimal text of an `i64`.
pub fn int_chars(n: i64) -> (r: Vec<char>)
    ensures
        r@ == int_text(n as int),
{
    if n < 0 {
        let m: u64 = if n == i64::MIN {
            9223372036854775808u64
        } else {
            (-n) as u64
        };
        let d = digits_u64(m);
        let mut v: Vec<char> = Vec::new();
        v.push('-');
        let mut i: usize = 0;
        while i < d.len()
            invariant
                i <= d@.len(),
                v@ == seq!['-'] + d@.subrange(0, i as int),
            decreases d@.len() - i,
        {
            v.push(d[i]);
            i = i + 1;
            assert(v@ =~= seq!['-'] + d@.subrange(0, i as int));
        }
        assert(d@.subrange(0, d@.len() as int) =~= d@);
        v
    } else {
        digits_u64(n as u64)
    }
}

/// The decimal text of an `i64` as a string.
pub fn int_string(n: i64) -> (r: String)
    ensures
        r@ == int_text(n as int),
{
    let v = int_chars(n);
    string_of(v.as_slice())
}

/// What `char::is_alphabetic` returns (the Unicode Alphabetic property).
pub uninterp spec fn char_alphabetic(c: char) -> bool;

/// What `char::is_alphanumeric` returns (Alphabetic or Numeric).
pub uninterp spec fn char_alphanumeric(c: char) -> bool;

/// `char::is_alphabetic`: on ASCII exactly the letters.
#[verifier::external_body]
pub fn is_alphabetic(c: char) -> (r: bool)
    ensures
        r == char_alphabetic(c),
        (c as u32) < 128 ==> (r <==> (('a' <= c && c <= 'z') || ('A' <= c && c <= 'Z'))),
{
    c.is_alphabetic()
}

/// `char::is_alphanumeric`: alphabetic or numeric; on ASCII exactly the letters and
/// digits.
#[verifier::external_body]
pub fn is_alphanumeric(c: char) -> (r: bool)
    ensures
        r == char_alphanumeric(c),
        char_alphabetic(c) ==> r,
        (c as u32) < 128 ==> (r <==> (('a' <= c && c <= 'z') || ('A' <= c && c <= 'Z') || ('0' <= c && c
            <= '9'))),
{
    c.is_alphanumeric()
}

/// An ASCII decimal digit.
pub open spec fn is_digit(c: char) -> bool {
    '0' <= c && c <= '9'
}

/// Every character is an ASCII digit.
pub open spec fn all_digits(s: Seq<char>) -> bool {
    forall|i: int| 0 <= i < s.len() ==> is_digit(#[trigger] s[i])
}

/// The number written by decimal digits.
pub open spec fn digits_val(s: Seq<char>) -> int
    decreases s.len(),
{
    if s.len() == 0 {
        0
    } else {
        digits_val(s.drop_last()) * 10 + (s.last() as int - 48)
    }
}

/// The integer an optionally signed run of decimal digits writes (`i64::from_str`
/// without the range check).
pub open spec fn int_of_text(s: Seq<char>) -> Option<int> {
    if s.len() > 0 && (s[0] == '+' || s[0] == '-') {
        let t = s.subrange(1, s.len() as int);
        if t.len() > 0 && all_digits(t) {
            Some(
                if s[0] == '-' {
                    -digits_val(t)
                } else {
                    digits_val(t)
                },
            )
        } else {
            None
        }
    } else if s.len() > 0 && all_digits(s) {
        Some(digits_val(s))
    } else {
        None
    }
}

/// What `str::parse::<i64>` gives.
pub open spec fn i64_of_text(s: Seq<char>) -> Option<i64> {
    match int_of_text(s) {
        Some(v) => if i64::MIN <= v <= i64::MAX {
            Some(v as i64)
        } else {
            None
        },
        None => None,
    }
}

/// `str::parse::<i64>`: an optional sign and at least one digit, in range.
pub fn parse_i64(s: &str) -> (r: Option<i64>)
    ensures
        r == i64_of_text(s@),
{
    let cs = chars_of(s);
    let n = cs.len();
    if n == 0 {
        return None;
    }
    let neg = cs[0] == '-';
    let start: usize = if cs[0] == '+' || cs[0] == '-' {
        1
    } else {
        0
    };
    if start == n {
        return None;
    }
    let ghost t = cs@.subrange(start as int, n as int);
    let mut acc: i128 = 0;
    let mut over = false;
    let mut i: usize = start;
    while i < n
        invariant
            cs@ == s@,
            n == cs@.len(),
            start <= i <= n,
            t == cs@.subrange(start as int, n as int),
            start <= 1,
            start == 1 <==> (cs@[0] == '+' || cs@[0] == '-'),
            neg == (cs@[0] == '-'),
            n > 0,
            all_digits(cs@.subrange(start as int, i as int)),
            !over ==> acc == digits_val(cs@.subrange(start as int, i as int)),
            !over ==> 0 <= acc <= 9223372036854775808,
            over ==> digits_val(cs@.subrange(start as int, i as int)) > 9223372036854775808,
        decreases n - i,
    {
        let c = cs[i];
        let ghost pre = cs@.subrange(start as int, i as int);
        let ghost nxt = cs@.subrange(start as int, i + 1);
        proof {
            assert(nxt.drop_last() =~= pre);
            assert(nxt.last() == c);
        }
        if !('0' <= c && c <= '9') {
            proof {
                assert(t[i - start] == c);
                assert(!is_digit(t[i - start]));
                assert(!all_digits(t));
                if start == 1 {
                    assert(t =~= s@.subrange(1, s@.len() as int));
                } else {
                    assert(t =~= s@);
                }
            }
            return None;
        }
        let d = (c as u32 - 48) as i128;
        if !over {
            let v = acc * 10 + d;
            if v > 9223372036854775808 {
                over = true;
            } else {
                acc = v;
            }
        }
        proof {
            assert(all_digits(nxt)) by {
                assert forall|j: int| 0 <= j < nxt.len() implies is_digit(#[trigger] nxt[j]) by {
                    if j < pre.len() {
                        assert(nxt[j] == pre[j]);
                    }
                }
            }
            assert(digits_val(nxt) == digits_val(pre) * 10 + (c as int - 48));
        }
        i = i + 1;
    }
    proof {
        assert(cs@.subrange(start as int, n as int) == t);
        if start == 1 {
            assert(t =~= s@.subrange(1, s@.len() as int));
        } else {
            assert(t =~= s@);
        }
    }
    if over {
        return None;
    }
    if neg {
        if acc <= 9223372036854775808 {
            let v: i128 = -acc;
            Some(v as i64)
        } else {
            None
        }
    } else {
        if acc <= 9223372036854775807 {
            Some(acc as i64)
        } else {
            None
        }
    }
}

/// Appends a string slice to `s`.
pub fn append_str(s: &mut String, t: &str)
    ensures
        final(s)@ == old(s)@ + t@,
{
    s.append(t);
}

/// The pieces of a text between the occurrences of a separator (`str::split`): one
/// piece more than there are separators.
pub open spec fn split_spec(s: Seq<char>, c: char) -> Seq<Seq<char>>
    decreases s.len(),
{
    if s.len() == 0 {
        seq![Seq::empty()]
    } else {
        let p = split_spec(s.drop_last(), c);
        if s.last() == c {
            p.push(Seq::empty())
        } else {
            p.update(p.len() - 1, p.last().push(s.last()))
        }
    }
}

proof fn lemma_split_len(s: Seq<char>, c: char)
    ensures
        split_spec(s, c).len() >= 1,
    decreases s.len(),
{
    if s.len() > 0 {
        lemma_split_len(s.drop_last(), c);
    }
}

/// The pieces of a text between the occurrences of a separator.
pub fn split_str(s: &str, c: char) -> (r: Vec<String>)
    ensures
        r@.map_values(|x: String| x@) == split_spec(s@, c),
{
    let cs = chars_of(s);
    let mut out: Vec<String> = Vec::new();
    let mut cur = String::new();
    let mut i: usize = 0;
    proof {
        assert(cs@.subrange(0, 0) =~= Seq::<char>::empty());
        assert(out@.map_values(|x: String| x@).push(cur@) =~= split_spec(Seq::<char>::empty(), c));
    }
    while i < cs.len()
        invariant
            i <= cs@.len(),
            cs@ == s@,
            out@.map_values(|x: String| x@).push(cur@) == split_spec(cs@.subrange(0, i as int), c),
        decreases cs@.len() - i,
    {
        let ghost pre = cs@.subrange(0, i as int);
        let ghost before = out@.map_values(|x: String| x@);
        let ghost cur0 = cur@;
        proof {
            let nx = cs@.subrange(0, i + 1);
            assert(nx.drop_last() =~= pre);
            assert(nx.last() == cs@[i as int]);
            lemma_split_len(pre, c);
        }
        if cs[i] == c {
            let done = cur;
            out.push(done);
            cur = String::new();
            proof {
                assert(out@.map_values(|x: String| x@) =~= before.push(cur0));
                assert(out@.map_values(|x: String| x@).push(cur@) =~= before.push(cur0).push(Seq::<char>::empty()));
            }
        } else {
            push_char(&mut cur, cs[i]);
            proof {
                assert(out@.map_values(|x: String| x@) == before);
                let p = before.push(cur0);
                assert(p.update(p.len() - 1, p.last().push(cs@[i as int])) =~= before.push(cur@));
            }
        }
        i = i + 1;
    }
    proof {
        assert(cs@.subrange(0, cs@.len() as int) =~= cs@);
    }
    let ghost before = out@.map_values(|x: String| x@);
    out.push(cur);
    proof {
        assert(out@.map_values(|x: String| x@) =~= before.push(cur@));
    }
    out
}

/// A split has at least one piece.
pub proof fn lemma_split_nonempty(s: Seq<char>, c: char)
    ensures
        split_spec(s, c).len() >= 1,
{
    lemma_split_len(s, c);
}

/// The first piece is the whole text when there is no separator, else the part
/// before the first separator.
pub proof fn lemma_split_first_len(s: Seq<char>, c: char)
    ensures
        split_spec(s, c).len() >= 1,
        split_spec(s, c).len() == 1 ==> split_spec(s, c)[0] == s,
        split_spec(s, c).len() > 1 ==> split_spec(s, c)[0].len() < s.len() && s[split_spec(s, c)[0].len() as int] == c
            && s.subrange(0, split_spec(s, c)[0].len() as int) == split_spec(s, c)[0],
    decreases s.len(),
{
    lemma_split_len(s, c);
    if s.len() == 0 {
        assert(split_spec(s, c)[0] =~= s);
    } else {
        let p = s.drop_last();
        lemma_split_first_len(p, c);
        let sp = split_spec(p, c);
        let q = split_spec(s, c);
        if s.last() == c {
            assert(q[0] == sp[0]);
            if sp.len() == 1 {
                assert(sp[0] == p);
                assert(s[p.len() as int] == c);
                assert(s.subrange(0, p.len() as int) =~= p);
            } else {
                assert(s.subrange(0, sp[0].len() as int) =~= p.subrange(0, sp[0].len() as int));
                assert(s[sp[0].len() as int] == p[sp[0].len() as int]);
            }
        } else {
            if sp.len() == 1 {
                assert(q[0] == sp[0].push(s.last()));
                assert(q[0] =~= s);
            } else {
                assert(q[0] == sp[0]);
                assert(s.subrange(0, sp[0].len() as int) =~= p.subrange(0, sp[0].len() as int));
                assert(s[sp[0].len() as int] == p[sp[0].len() as int]);
            }
        }
    }
}

} // verus!
