//! Report formulas: tokens, syntax tree, lexer and recursive-descent parser.
//!
//! Grammar (loosest first): or → and → comparison → additive → multiplicative →
//! unary → primary; a primary is a literal, `(expr)`, an organisation mark
//! `@current`, a function call `NAME(args)` (name upper-cased), a cell `C5`, a range
//! `C5:D10`, or a bare field name.
use vstd::prelude::*;
use crate::decimal::{Dec, dec_parse, dec_parse_result};
use crate::expand::is_ws;
use crate::formula::cells::{is_cell_ref, cell_ref_spec};
use crate::text::{
    chars_of, string_of, push_char, copy_str, lower_seq, upper_seq, lower_chars, upper_string, str_eq,
    char_alphabetic, char_alphanumeric, is_alphabetic, is_alphanumeric,
};

verus! {

/// A token.
#[derive(Debug, PartialEq)]
pub enum Tok {
    Num(Dec),
    Str(String),
    Ident(String),
    /// An organisation mark without `@`, lower-cased.
    Org(String),
    Op(String),
    LParen,
    RParen,
    Comma,
    Colon,
    True,
    False,
    Null,
}

/// A token as plain values.
pub enum TokV {
    Num(Dec),
    Str(Seq<char>),
    Ident(Seq<char>),
    Org(Seq<char>),
    Op(Seq<char>),
    LParen,
    RParen,
    Comma,
    Colon,
    True,
    False,
    Null,
}

impl View for Tok {
    type V = TokV;

    open spec fn view(&self) -> TokV {
        match self {
            Tok::Num(n) => TokV::Num(*n),
            Tok::Str(s) => TokV::Str(s@),
            Tok::Ident(s) => TokV::Ident(s@),
            Tok::Org(s) => TokV::Org(s@),
            Tok::Op(s) => TokV::Op(s@),
            Tok::LParen => TokV::LParen,
            Tok::RParen => TokV::RParen,
            Tok::Comma => TokV::Comma,
            Tok::Colon => TokV::Colon,
            Tok::True => TokV::True,
            Tok::False => TokV::False,
            Tok::Null => TokV::Null,
        }
    }
}

/// Tokens as plain values.
pub open spec fn toks_view(v: Seq<Tok>) -> Seq<TokV> {
    v.map_values(|t: Tok| t@)
}

/// Why a text is not a token sequence.
#[derive(Debug, Clone, PartialEq)]
pub enum LexError {
    /// A digit run that is not a decimal number.
    BadNumber(String),
    /// A single `=` (use `==`).
    SingleEquals,
    /// A single `&` or `|`.
    BadOperator(char),
    /// `@` without a name.
    EmptyOrg,
    UnclosedString,
    BadChar(char),
}

/// A lexing error as plain values.
pub enum LexErrV {
    BadNumber(Seq<char>),
    SingleEquals,
    BadOperator(char),
    EmptyOrg,
    UnclosedString,
    BadChar(char),
}

impl View for LexError {
    type V = LexErrV;

    open spec fn view(&self) -> LexErrV {
        match self {
            LexError::BadNumber(s) => LexErrV::BadNumber(s@),
            LexError::SingleEquals => LexErrV::SingleEquals,
            LexError::BadOperator(c) => LexErrV::BadOperator(*c),
            LexError::EmptyOrg => LexErrV::EmptyOrg,
            LexError::UnclosedString => LexErrV::UnclosedString,
            LexError::BadChar(c) => LexErrV::BadChar(*c),
        }
    }
}

/// A character of a number literal: an ASCII digit or `.`.
pub open spec fn is_num_char(c: char) -> bool {
    ('0' <= c && c <= '9') || c == '.'
}

/// A character continuing an identifier.
pub open spec fn is_ident_char(c: char) -> bool {
    char_alphanumeric(c) || c == '_' || c == '.'
}

/// A character of an organisation mark.
pub open spec fn is_org_char(c: char) -> bool {
    char_alphanumeric(c) || c == '_'
}

/// The end of the run from `i` of characters satisfying `p`.
pub open spec fn run_end(cs: Seq<char>, i: int, p: spec_fn(char) -> bool) -> int
    decreases cs.len() - i,
{
    if 0 <= i < cs.len() && p(cs[i]) {
        run_end(cs, i + 1, p)
    } else {
        i
    }
}

/// Whether a `-` right after these tokens starts a negative number literal.
pub open spec fn prev_allows_unary(out: Seq<TokV>) -> bool {
    out.len() == 0 || out.last() is Op || out.last() is LParen || out.last() is Comma || out.last() is Colon
}

/// The token a word is: the keywords `true`/`false`/`null` (any case), else an
/// identifier.
pub open spec fn word_tok(w: Seq<char>) -> TokV {
    let l = lower_seq(w);
    if l == "true"@ {
        TokV::True
    } else if l == "false"@ {
        TokV::False
    } else if l == "null"@ {
        TokV::Null
    } else {
        TokV::Ident(w)
    }
}

/// The tokens of `cs[i..]`, after the tokens `out` already read.
pub open spec fn lex_from(cs: Seq<char>, i: int, out: Seq<TokV>) -> Result<Seq<TokV>, LexErrV>
    decreases cs.len() - i,
{
    if i < 0 || i >= cs.len() {
        Ok(out)
    } else {
        let c = cs[i];
        if is_ws(c) {
            lex_from(cs, i + 1, out)
        } else if c == '(' {
            lex_from(cs, i + 1, out.push(TokV::LParen))
        } else if c == ')' {
            lex_from(cs, i + 1, out.push(TokV::RParen))
        } else if c == ',' {
            lex_from(cs, i + 1, out.push(TokV::Comma))
        } else if c == ':' {
            lex_from(cs, i + 1, out.push(TokV::Colon))
        } else if c == '+' || c == '*' || c == '/' {
            lex_from(cs, i + 1, out.push(TokV::Op(seq![c])))
        } else if c == '-' {
            if prev_allows_unary(out) && i + 1 < cs.len() && is_num_char(cs[i + 1]) {
                let e = run_end(cs, i + 1, |x: char| is_num_char(x));
                let text = seq!['-'] + cs.subrange(i + 1, e);
                match dec_parse_result(text) {
                    Some(n) => if i < e <= cs.len() {
                        lex_from(cs, e, out.push(TokV::Num(n)))
                    } else {
                        Ok(out)
                    },
                    None => Err(LexErrV::BadNumber(text)),
                }
            } else {
                lex_from(cs, i + 1, out.push(TokV::Op(seq!['-'])))
            }
        } else if c == '>' || c == '<' || c == '=' || c == '!' {
            if i + 1 < cs.len() && cs[i + 1] == '=' {
                lex_from(cs, i + 2, out.push(TokV::Op(seq![c, '='])))
            } else if c == '!' {
                lex_from(cs, i + 1, out.push(TokV::Op(seq!['!'])))
            } else if c == '=' {
                Err(LexErrV::SingleEquals)
            } else {
                lex_from(cs, i + 1, out.push(TokV::Op(seq![c])))
            }
        } else if c == '&' || c == '|' {
            if i + 1 < cs.len() && cs[i + 1] == c {
                lex_from(cs, i + 2, out.push(TokV::Op(seq![c, c])))
            } else {
                Err(LexErrV::BadOperator(c))
            }
        } else if c == '@' {
            let e = run_end(cs, i + 1, |x: char| is_org_char(x));
            if e <= i + 1 || e > cs.len() {
                Err(LexErrV::EmptyOrg)
            } else {
                lex_from(cs, e, out.push(TokV::Org(lower_seq(cs.subrange(i + 1, e)))))
            }
        } else if c == '\'' || c == '"' {
            let e = run_end(cs, i + 1, |x: char| x != c);
            if e >= cs.len() || e <= i {
                Err(LexErrV::UnclosedString)
            } else {
                lex_from(cs, e + 1, out.push(TokV::Str(cs.subrange(i + 1, e))))
            }
        } else if is_num_char(c) {
            let e = run_end(cs, i + 1, |x: char| is_num_char(x));
            let text = cs.subrange(i, e);
            match dec_parse_result(text) {
                Some(n) => if i < e <= cs.len() {
                    lex_from(cs, e, out.push(TokV::Num(n)))
                } else {
                    Ok(out)
                },
                None => Err(LexErrV::BadNumber(text)),
            }
        } else if char_alphabetic(c) || c == '_' {
            let e = run_end(cs, i + 1, |x: char| is_ident_char(x));
            if i < e <= cs.len() {
                lex_from(cs, e, out.push(word_tok(cs.subrange(i, e))))
            } else {
                Ok(out)
            }
        } else {
            Err(LexErrV::BadChar(c))
        }
    }
}

proof fn lemma_run_end(cs: Seq<char>, i: int, p: spec_fn(char) -> bool)
    requires
        0 <= i <= cs.len(),
    ensures
        i <= run_end(cs, i, p) <= cs.len(),
        forall|j: int| i <= j < run_end(cs, i, p) ==> p(#[trigger] cs[j]),
        run_end(cs, i, p) < cs.len() ==> !p(cs[run_end(cs, i, p)]),
    decreases cs.len() - i,
{
    if i < cs.len() && p(cs[i]) {
        lemma_run_end(cs, i + 1, p);
    }
}

/// Scans the run from `i` of number characters.
fn scan_num(cs: &Vec<char>, i: usize) -> (e: usize)
    requires
        i <= cs@.len(),
    ensures
        e == run_end(cs@, i as int, |x: char| is_num_char(x)),
        i <= e <= cs@.len(),
{
    proof {
        lemma_run_end(cs@, i as int, |x: char| is_num_char(x));
    }
    let mut j = i;
    while j < cs.len() && (('0' <= cs[j] && cs[j] <= '9') || cs[j] == '.')
        invariant
            i <= j <= cs@.len(),
            run_end(cs@, j as int, |x: char| is_num_char(x)) == run_end(cs@, i as int, |x: char| is_num_char(x)),
        decreases cs@.len() - j,
    {
        j = j + 1;
    }
    j
}

/// Scans the run from `i` of identifier (or, with `org`, organisation) characters.
fn scan_word(cs: &Vec<char>, i: usize, org: bool) -> (e: usize)
    requires
        i <= cs@.len(),
    ensures
        org ==> e == run_end(cs@, i as int, |x: char| is_org_char(x)),
        !org ==> e == run_end(cs@, i as int, |x: char| is_ident_char(x)),
        i <= e <= cs@.len(),
{
    proof {
        lemma_run_end(cs@, i as int, |x: char| is_org_char(x));
        lemma_run_end(cs@, i as int, |x: char| is_ident_char(x));
    }
    let mut j = i;
    while j < cs.len() && (is_alphanumeric(cs[j]) || cs[j] == '_' || (!org && cs[j] == '.'))
        invariant
            i <= j <= cs@.len(),
            org ==> run_end(cs@, j as int, |x: char| is_org_char(x)) == run_end(
                cs@,
                i as int,
                |x: char| is_org_char(x),
            ),
            !org ==> run_end(cs@, j as int, |x: char| is_ident_char(x)) == run_end(
                cs@,
                i as int,
                |x: char| is_ident_char(x),
            ),
        decreases cs@.len() - j,
    {
        j = j + 1;
    }
    j
}

/// Scans a quoted string's body from `i` up to the closing `q`.
fn scan_until(cs: &Vec<char>, i: usize, q: char) -> (e: usize)
    requires
        i <= cs@.len(),
    ensures
        e == run_end(cs@, i as int, |x: char| x != q),
        i <= e <= cs@.len(),
{
    proof {
        lemma_run_end(cs@, i as int, |x: char| x != q);
    }
    let mut j = i;
    while j < cs.len() && cs[j] != q
        invariant
            i <= j <= cs@.len(),
            run_end(cs@, j as int, |x: char| x != q) == run_end(cs@, i as int, |x: char| x != q),
        decreases cs@.len() - j,
    {
        j = j + 1;
    }
    j
}

fn chars_string(cs: &Vec<char>, from: usize, to: usize) -> (r: String)
    requires
        from <= to <= cs@.len(),
    ensures
        r@ == cs@.subrange(from as int, to as int),
{
    let mut out = String::new();
    let mut j: usize = from;
    while j < to
        invariant
            from <= j <= to <= cs@.len(),
            out@ == cs@.subrange(from as int, j as int),
        decreases to - j,
    {
        push_char(&mut out, cs[j]);
        j = j + 1;
        assert(out@ =~= cs@.subrange(from as int, j as int));
    }
    out
}

fn one_char(c: char) -> (r: String)
    ensures
        r@ == seq![c],
{
    let mut s = String::new();
    push_char(&mut s, c);
    assert(s@ =~= seq![c]);
    s
}

fn two_chars(c: char, d: char) -> (r: String)
    ensures
        r@ == seq![c, d],
{
    let mut s = String::new();
    push_char(&mut s, c);
    push_char(&mut s, d);
    assert(s@ =~= seq![c, d]);
    s
}

fn is_ws_char(c: char) -> (r: bool)
    ensures
        r == is_ws(c),
{
    ('\t' <= c && c <= '\r') || c == ' ' || c == '\u{85}' || c == '\u{a0}' || c == '\u{1680}' || ('\u{2000}' <= c
        && c <= '\u{200a}') || c == '\u{2028}' || c == '\u{2029}' || c == '\u{202f}' || c == '\u{205f}' || c
        == '\u{3000}'
}

fn allows_unary(out: &Vec<Tok>) -> (r: bool)
    ensures
        r == prev_allows_unary(toks_view(out@)),
{
    if out.len() == 0 {
        return true;
    }
    let last = &out[out.len() - 1];
    proof {
        assert(toks_view(out@).last() == out@[out@.len() - 1]@);
    }
    match last {
        Tok::Op(_) | Tok::LParen | Tok::Comma | Tok::Colon => true,
        _ => false,
    }
}

/// The tokens of a formula text.
pub fn lex(s: &str) -> (r: Result<Vec<Tok>, LexError>)
    ensures
        r matches Ok(v) ==> lex_from(s@, 0, Seq::empty()) == Ok::<Seq<TokV>, LexErrV>(toks_view(v@)),
        r matches Err(e) ==> lex_from(s@, 0, Seq::empty()) == Err::<Seq<TokV>, LexErrV>(e@),
{
    let cs = chars_of(s);
    let n = cs.len();
    let mut out: Vec<Tok> = Vec::new();
    let mut i: usize = 0;
    proof {
        assert(toks_view(out@) =~= Seq::<TokV>::empty());
    }
    while i < n
        invariant
            cs@ == s@,
            n == cs@.len(),
            i <= n,
            lex_from(cs@, i as int, toks_view(out@)) == lex_from(s@, 0, Seq::empty()),
        decreases n - i,
    {
        let c = cs[i];
        let ghost o = toks_view(out@);
        if is_ws_char(c) {
            i = i + 1;
            continue;
        }
        if c == '(' || c == ')' || c == ',' || c == ':' {
            let t = if c == '(' {
                Tok::LParen
            } else if c == ')' {
                Tok::RParen
            } else if c == ',' {
                Tok::Comma
            } else {
                Tok::Colon
            };
            out.push(t);
            proof {
                assert(toks_view(out@) =~= o.push(t@));
            }
            i = i + 1;
        } else if c == '+' || c == '*' || c == '/' {
            let t = Tok::Op(one_char(c));
            out.push(t);
            proof {
                assert(toks_view(out@) =~= o.push(t@));
            }
            i = i + 1;
        } else if c == '-' {
            if allows_unary(&out) && i + 1 < n && (('0' <= cs[i + 1] && cs[i + 1] <= '9') || cs[i + 1] == '.') {
                let e = scan_num(&cs, i + 1);
                let mut text = one_char('-');
                let body = chars_string(&cs, i + 1, e);
                crate::text::append_str(&mut text, body.as_str());
                proof {
                    assert(text@ =~= seq!['-'] + cs@.subrange(i + 1, e as int));
                }
                match dec_parse(text.as_str()) {
                    Some(num) => {
                        let t = Tok::Num(num);
                        out.push(t);
                        proof {
                            assert(toks_view(out@) =~= o.push(t@));
                        }
                        i = e;
                    },
                    None => {
                        return Err(LexError::BadNumber(text));
                    },
                }
            } else {
                let t = Tok::Op(one_char('-'));
                out.push(t);
                proof {
                    assert(toks_view(out@) =~= o.push(t@));
                }
                i = i + 1;
            }
        } else if c == '>' || c == '<' || c == '=' || c == '!' {
            if i + 1 < n && cs[i + 1] == '=' {
                let t = Tok::Op(two_chars(c, '='));
                out.push(t);
                proof {
                    assert(toks_view(out@) =~= o.push(t@));
                }
                i = i + 2;
            } else if c == '!' {
                let t = Tok::Op(one_char('!'));
                out.push(t);
                proof {
                    assert(toks_view(out@) =~= o.push(t@));
                }
                i = i + 1;
            } else if c == '=' {
                return Err(LexError::SingleEquals);
            } else {
                let t = Tok::Op(one_char(c));
                out.push(t);
                proof {
                    assert(toks_view(out@) =~= o.push(t@));
                }
                i = i + 1;
            }
        } else if c == '&' || c == '|' {
            if i + 1 < n && cs[i + 1] == c {
                let t = Tok::Op(two_chars(c, c));
                out.push(t);
                proof {
                    assert(toks_view(out@) =~= o.push(t@));
                }
                i = i + 2;
            } else {
                return Err(LexError::BadOperator(c));
            }
        } else if c == '@' {
            let e = scan_word(&cs, i + 1, true);
            if e == i + 1 {
                return Err(LexError::EmptyOrg);
            }
            let name = chars_string(&cs, i + 1, e);
            let lowered = crate::text::lower_string(name.as_str());
            let t = Tok::Org(lowered);
            out.push(t);
            proof {
                assert(toks_view(out@) =~= o.push(t@));
            }
            i = e;
        } else if c == '\'' || c == '"' {
            let e = scan_until(&cs, i + 1, c);
            if e >= n {
                return Err(LexError::UnclosedString);
            }
            let body = chars_string(&cs, i + 1, e);
            let t = Tok::Str(body);
            out.push(t);
            proof {
                assert(toks_view(out@) =~= o.push(t@));
            }
            i = e + 1;
        } else if ('0' <= c && c <= '9') || c == '.' {
            let e = scan_num(&cs, i + 1);
            let text = chars_string(&cs, i, e);
            match dec_parse(text.as_str()) {
                Some(num) => {
                    let t = Tok::Num(num);
                    out.push(t);
                    proof {
                        assert(toks_view(out@) =~= o.push(t@));
                    }
                    i = e;
                },
                None => {
                    return Err(LexError::BadNumber(text));
                },
            }
        } else if is_alphabetic(c) || c == '_' {
            let e = scan_word(&cs, i + 1, false);
            let w = chars_string(&cs, i, e);
            let l = lower_chars(w.as_str());
            let t = if str_eq(l_str(&l).as_str(), "true") {
                Tok::True
            } else if str_eq(l_str(&l).as_str(), "false") {
                Tok::False
            } else if str_eq(l_str(&l).as_str(), "null") {
                Tok::Null
            } else {
                Tok::Ident(w)
            };
            proof {
                assert(t@ == word_tok(cs@.subrange(i as int, e as int)));
            }
            out.push(t);
            proof {
                assert(toks_view(out@) =~= o.push(t@));
            }
            i = e;
        } else {
            return Err(LexError::BadChar(c));
        }
    }
    Ok(out)
}

fn l_str(v: &Vec<char>) -> (r: String)
    ensures
        r@ == v@,
{
    string_of(v.as_slice())
}

// ----------------------------------------------------------------------------
// Syntax tree and parser
// ----------------------------------------------------------------------------
impl Clone for Tok {
    fn clone(&self) -> (r: Self)
        ensures
            r@ == self@,
    {
        match self {
            Tok::Num(n) => Tok::Num(*n),
            Tok::Str(s) => Tok::Str(s.clone()),
            Tok::Ident(s) => Tok::Ident(s.clone()),
            Tok::Org(s) => Tok::Org(s.clone()),
            Tok::Op(s) => Tok::Op(s.clone()),
            Tok::LParen => Tok::LParen,
            Tok::RParen => Tok::RParen,
            Tok::Comma => Tok::Comma,
            Tok::Colon => Tok::Colon,
            Tok::True => Tok::True,
            Tok::False => Tok::False,
            Tok::Null => Tok::Null,
        }
    }
}

/// A syntax tree node.
#[derive(Debug, PartialEq)]
pub enum Node {
    Num(Dec),
    Str(String),
    Bool(bool),
    Null,
    /// A bare field name (looked up in the scope; missing counts as 0).
    Ident(String),
    /// `@current` / `@parent` / `@root`.
    OrgRef(String),
    /// A cell of this report, `C5`.
    Cell(String),
    /// A range of this report, `C5:D10`.
    Range(String, String),
    Unary(String, Box<Node>),
    Binary(String, Box<Node>, Box<Node>),
    /// A function call (name upper-cased).
    Call(String, Vec<Node>),
}

/// A syntax tree as plain values.
pub enum NodeV {
    Num(Dec),
    Str(Seq<char>),
    Bool(bool),
    Null,
    Ident(Seq<char>),
    OrgRef(Seq<char>),
    Cell(Seq<char>),
    Range(Seq<char>, Seq<char>),
    Unary(Seq<char>, Box<NodeV>),
    Binary(Seq<char>, Box<NodeV>, Box<NodeV>),
    Call(Seq<char>, Seq<NodeV>),
}

/// The plain value of a node.
pub open spec fn node_view(n: Node) -> NodeV
    decreases n,
{
    match n {
        Node::Num(d) => NodeV::Num(d),
        Node::Str(s) => NodeV::Str(s@),
        Node::Bool(b) => NodeV::Bool(b),
        Node::Null => NodeV::Null,
        Node::Ident(s) => NodeV::Ident(s@),
        Node::OrgRef(s) => NodeV::OrgRef(s@),
        Node::Cell(s) => NodeV::Cell(s@),
        Node::Range(a, b) => NodeV::Range(a@, b@),
        Node::Unary(o, x) => NodeV::Unary(o@, Box::new(node_view(*x))),
        Node::Binary(o, x, y) => NodeV::Binary(o@, Box::new(node_view(*x)), Box::new(node_view(*y))),
        Node::Call(f, args) => NodeV::Call(f@, nodes_view(args@)),
    }
}

/// The plain values of nodes.
pub open spec fn nodes_view(s: Seq<Node>) -> Seq<NodeV>
    decreases s,
{
    if s.len() == 0 {
        Seq::empty()
    } else {
        seq![node_view(s[0])] + nodes_view(s.subrange(1, s.len() as int))
    }
}

/// Why a formula does not parse.
#[derive(Debug, Clone, PartialEq)]
pub enum ParseError {
    Lex(LexError),
    /// Tokens left over at this position.
    Trailing(usize),
    /// `(` without `)`.
    MissingRParen,
    /// A call without `)`.
    CallMissingRParen,
    /// A range whose right end is not a cell (the token found).
    BadRangeEnd(Option<Tok>),
    /// A token that cannot start an operand (None: the end).
    Unexpected(Option<Tok>),
}

/// A parse error as plain values.
pub enum ParseErrV {
    Lex(LexErrV),
    Trailing(int),
    MissingRParen,
    CallMissingRParen,
    BadRangeEnd(Option<TokV>),
    Unexpected(Option<TokV>),
}

/// The plain value of an optional token.
pub open spec fn opt_tok_view(o: Option<Tok>) -> Option<TokV> {
    match o {
        Some(t) => Some(t@),
        None => None,
    }
}

impl View for ParseError {
    type V = ParseErrV;

    open spec fn view(&self) -> ParseErrV {
        match self {
            ParseError::Lex(e) => ParseErrV::Lex(e@),
            ParseError::Trailing(p) => ParseErrV::Trailing(*p as int),
            ParseError::MissingRParen => ParseErrV::MissingRParen,
            ParseError::CallMissingRParen => ParseErrV::CallMissingRParen,
            ParseError::BadRangeEnd(t) => ParseErrV::BadRangeEnd(opt_tok_view(*t)),
            ParseError::Unexpected(t) => ParseErrV::Unexpected(opt_tok_view(*t)),
        }
    }
}

/// A parse result: the tree and the position after it.
pub type PRes = Result<(NodeV, int), ParseErrV>;

/// The token at a position.
pub open spec fn tok_at(t: Seq<TokV>, pos: int) -> Option<TokV> {
    if 0 <= pos < t.len() {
        Some(t[pos])
    } else {
        None
    }
}

/// Whether the token at `pos` is the operator `op`.
pub open spec fn op_at(t: Seq<TokV>, pos: int, op: Seq<char>) -> bool {
    tok_at(t, pos) matches Some(TokV::Op(o)) && o == op
}

/// The comparison operators.
pub open spec fn is_cmp_op(o: Seq<char>) -> bool {
    o == ">"@ || o == "<"@ || o == ">="@ || o == "<="@ || o == "=="@ || o == "!="@
}

/// The operator at `pos` when it belongs to a precedence level.
pub open spec fn level_op(t: Seq<TokV>, pos: int, level: int) -> Option<Seq<char>> {
    match tok_at(t, pos) {
        Some(TokV::Op(o)) => if (level == 0 && o == "||"@) || (level == 1 && o == "&&"@) || (level == 2 && is_cmp_op(o))
            || (level == 3 && (o == "+"@ || o == "-"@)) || (level == 4 && (o == "*"@ || o == "/"@)) {
            Some(o)
        } else {
            None
        },
        _ => None,
    }
}

/// A binary level: `level` 0 or, 1 and, 2 comparison, 3 additive, 4 multiplicative.
pub open spec fn p_level(t: Seq<TokV>, pos: int, level: int) -> PRes
    decreases t.len() - pos, 3 * (5 - level) + 3, 0int,
{
    if pos < 0 || pos > t.len() || level < 0 || level > 4 {
        Err(ParseErrV::Unexpected(None))
    } else {
        match p_next(t, pos, level) {
            Ok((l, p1)) => if pos <= p1 <= t.len() {
                p_rest(t, l, p1, level)
            } else {
                Err(ParseErrV::Unexpected(None))
            },
            Err(e) => Err(e),
        }
    }
}

/// The operand of a level (the next level, or a unary expression under level 4).
pub open spec fn p_next(t: Seq<TokV>, pos: int, level: int) -> PRes
    decreases t.len() - pos, 3 * (5 - level) + 2, 0int,
{
    if pos < 0 || pos > t.len() || level < 0 || level > 4 {
        Err(ParseErrV::Unexpected(None))
    } else if level == 4 {
        p_unary(t, pos)
    } else {
        p_level(t, pos, level + 1)
    }
}

/// The left-associative rest of a level after its first operand `left`.
pub open spec fn p_rest(t: Seq<TokV>, left: NodeV, pos: int, level: int) -> PRes
    decreases t.len() - pos, 3 * (5 - level) + 1, 0int,
{
    if pos < 0 || pos > t.len() || level < 0 || level > 4 {
        Err(ParseErrV::Unexpected(None))
    } else {
        match level_op(t, pos, level) {
            Some(o) => match p_next(t, pos + 1, level) {
                Ok((r, p2)) => if pos < p2 <= t.len() {
                    p_rest(t, NodeV::Binary(o, Box::new(left), Box::new(r)), p2, level)
                } else {
                    Err(ParseErrV::Unexpected(None))
                },
                Err(e) => Err(e),
            },
            None => Ok((left, pos)),
        }
    }
}

/// A unary expression: `-x`, `!x`, or a primary.
pub open spec fn p_unary(t: Seq<TokV>, pos: int) -> PRes
    decreases t.len() - pos, 2int, 0int,
{
    if pos < 0 || pos > t.len() {
        Err(ParseErrV::Unexpected(None))
    } else if op_at(t, pos, "-"@) || op_at(t, pos, "!"@) {
        let o = if op_at(t, pos, "-"@) {
            "-"@
        } else {
            "!"@
        };
        match p_unary(t, pos + 1) {
            Ok((x, p1)) => Ok((NodeV::Unary(o, Box::new(x)), p1)),
            Err(e) => Err(e),
        }
    } else {
        p_primary(t, pos)
    }
}

/// Call arguments from `pos`: expressions separated by commas (after `acc`).
pub open spec fn p_args(t: Seq<TokV>, pos: int, acc: Seq<NodeV>) -> Result<(Seq<NodeV>, int), ParseErrV>
    decreases t.len() - pos, 19int, 0int,
{
    if pos < 0 || pos > t.len() {
        Err(ParseErrV::Unexpected(None))
    } else {
        match p_level(t, pos, 0) {
            Ok((a, p1)) => if pos <= p1 <= t.len() {
                if tok_at(t, p1) == Some(TokV::Comma) {
                    p_args(t, p1 + 1, acc.push(a))
                } else {
                    Ok((acc.push(a), p1))
                }
            } else {
                Err(ParseErrV::Unexpected(None))
            },
            Err(e) => Err(e),
        }
    }
}

/// A primary: a literal, `(expr)`, an organisation mark, a call, a cell, a range or a
/// field name.
pub open spec fn p_primary(t: Seq<TokV>, pos: int) -> PRes
    decreases t.len() - pos, 1int, 0int,
{
    if pos < 0 || pos >= t.len() {
        Err(ParseErrV::Unexpected(None))
    } else {
        match t[pos] {
            TokV::Num(n) => Ok((NodeV::Num(n), pos + 1)),
            TokV::Str(s) => Ok((NodeV::Str(s), pos + 1)),
            TokV::Org(o) => Ok((NodeV::OrgRef(o), pos + 1)),
            TokV::True => Ok((NodeV::Bool(true), pos + 1)),
            TokV::False => Ok((NodeV::Bool(false), pos + 1)),
            TokV::Null => Ok((NodeV::Null, pos + 1)),
            TokV::LParen => match p_level(t, pos + 1, 0) {
                Ok((e, p1)) => if tok_at(t, p1) == Some(TokV::RParen) {
                    Ok((e, p1 + 1))
                } else {
                    Err(ParseErrV::MissingRParen)
                },
                Err(err) => Err(err),
            },
            TokV::Ident(name) => if tok_at(t, pos + 1) == Some(TokV::LParen) {
                if tok_at(t, pos + 2) == Some(TokV::RParen) {
                    Ok((NodeV::Call(upper_seq(name), Seq::empty()), pos + 3))
                } else {
                    match p_args(t, pos + 2, Seq::empty()) {
                        Ok((args, p1)) => if tok_at(t, p1) == Some(TokV::RParen) {
                            Ok((NodeV::Call(upper_seq(name), args), p1 + 1))
                        } else {
                            Err(ParseErrV::CallMissingRParen)
                        },
                        Err(e) => Err(e),
                    }
                }
            } else if cell_ref_spec(name) {
                if tok_at(t, pos + 1) == Some(TokV::Colon) {
                    match tok_at(t, pos + 2) {
                        Some(TokV::Ident(end)) => if cell_ref_spec(end) {
                            Ok((NodeV::Range(upper_seq(name), upper_seq(end)), pos + 3))
                        } else {
                            Err(ParseErrV::BadRangeEnd(tok_at(t, pos + 2)))
                        },
                        other => Err(ParseErrV::BadRangeEnd(other)),
                    }
                } else {
                    Ok((NodeV::Cell(upper_seq(name)), pos + 1))
                }
            } else {
                Ok((NodeV::Ident(name), pos + 1))
            },
            other => Err(ParseErrV::Unexpected(Some(other))),
        }
    }
}

/// What parsing a formula gives: its tokens parsed as one expression, with no token
/// left over.
pub open spec fn parse_spec(s: Seq<char>) -> Result<NodeV, ParseErrV> {
    match lex_from(s, 0, Seq::empty()) {
        Err(e) => Err(ParseErrV::Lex(e)),
        Ok(t) => match p_level(t, 0, 0) {
            Ok((n, p)) => if p == t.len() {
                Ok(n)
            } else {
                Err(ParseErrV::Trailing(p))
            },
            Err(e) => Err(e),
        },
    }
}

/// The parse of `toks` from `pos` matches the spec result `want`.
pub open spec fn pres_is(r: Result<(Node, usize), ParseError>, want: PRes) -> bool {
    match want {
        Ok((n, p)) => r matches Ok(x) && node_view(x.0) == n && x.1 == p,
        Err(e) => r matches Err(x) && x@ == e,
    }
}

fn tok_at_exec(toks: &Vec<Tok>, pos: usize) -> (r: Option<Tok>)
    ensures
        opt_tok_view(r) == tok_at(toks_view(toks@), pos as int),
{
    if pos < toks.len() {
        Some(toks[pos].clone())
    } else {
        None
    }
}

fn is_op_of_level(o: &String, level: u8) -> (r: bool)
    ensures
        r == ((level == 0 && o@ == "||"@) || (level == 1 && o@ == "&&"@) || (level == 2 && is_cmp_op(o@)) || (level
            == 3 && (o@ == "+"@ || o@ == "-"@)) || (level == 4 && (o@ == "*"@ || o@ == "/"@))),
{
    let s = o.as_str();
    if level == 0 {
        str_eq(s, "||")
    } else if level == 1 {
        str_eq(s, "&&")
    } else if level == 2 {
        str_eq(s, ">") || str_eq(s, "<") || str_eq(s, ">=") || str_eq(s, "<=") || str_eq(s, "==") || str_eq(s, "!=")
    } else if level == 3 {
        str_eq(s, "+") || str_eq(s, "-")
    } else if level == 4 {
        str_eq(s, "*") || str_eq(s, "/")
    } else {
        false
    }
}

fn level_op_exec(toks: &Vec<Tok>, pos: usize, level: u8) -> (r: Option<String>)
    requires
        level <= 4,
    ensures
        r matches Some(o) ==> level_op(toks_view(toks@), pos as int, level as int) == Some(o@) && pos < toks@.len(),
        r is None ==> level_op(toks_view(toks@), pos as int, level as int) is None,
{
    if pos < toks.len() {
        proof {
            assert(toks_view(toks@)[pos as int] == toks@[pos as int]@);
        }
        match &toks[pos] {
            Tok::Op(o) => if is_op_of_level(o, level) {
                Some(o.clone())
            } else {
                None
            },
            _ => None,
        }
    } else {
        None
    }
}

fn parse_level(toks: &Vec<Tok>, pos: usize, level: u8) -> (r: Result<(Node, usize), ParseError>)
    requires
        pos <= toks@.len(),
        level <= 4,
    ensures
        pres_is(r, p_level(toks_view(toks@), pos as int, level as int)),
        r matches Ok(x) ==> pos <= x.1 <= toks@.len(),
    decreases toks@.len() - pos, 3 * (5 - level) + 3, 1int,
{
    let first = parse_next(toks, pos, level);
    match first {
        Ok((left, p1)) => parse_rest(toks, left, p1, level),
        Err(e) => Err(e),
    }
}

fn parse_next(toks: &Vec<Tok>, pos: usize, level: u8) -> (r: Result<(Node, usize), ParseError>)
    requires
        pos <= toks@.len(),
        level <= 4,
    ensures
        pres_is(r, p_next(toks_view(toks@), pos as int, level as int)),
        r matches Ok(x) ==> pos <= x.1 <= toks@.len(),
    decreases toks@.len() - pos, 3 * (5 - level) + 2, 1int,
{
    if level == 4 {
        parse_unary(toks, pos)
    } else {
        parse_level(toks, pos, level + 1)
    }
}

fn parse_rest(toks: &Vec<Tok>, left: Node, pos: usize, level: u8) -> (r: Result<(Node, usize), ParseError>)
    requires
        pos <= toks@.len(),
        level <= 4,
    ensures
        pres_is(r, p_rest(toks_view(toks@), node_view(left), pos as int, level as int)),
        r matches Ok(x) ==> pos <= x.1 <= toks@.len(),
    decreases toks@.len() - pos, 3 * (5 - level) + 1, 1int,
{
    match level_op_exec(toks, pos, level) {
        Some(o) => {
            let n = toks.len();
            proof {
                assert(pos < n);
            }
            match parse_next(toks, pos + 1, level) {
                Ok((right, p2)) => {
                    let ghost lv = node_view(left);
                    let ghost rv = node_view(right);
                    let combined = Node::Binary(o, Box::new(left), Box::new(right));
                    proof {
                        assert(node_view(combined) == NodeV::Binary(o@, Box::new(lv), Box::new(rv)));
                    }
                    parse_rest(toks, combined, p2, level)
                },
                Err(e) => Err(e),
            }
        },
        None => Ok((left, pos)),
    }
}

fn parse_unary(toks: &Vec<Tok>, pos: usize) -> (r: Result<(Node, usize), ParseError>)
    requires
        pos <= toks@.len(),
    ensures
        pres_is(r, p_unary(toks_view(toks@), pos as int)),
        r matches Ok(x) ==> pos < x.1 <= toks@.len(),
    decreases toks@.len() - pos, 2int, 1int,
{
    if pos < toks.len() {
        proof {
            assert(toks_view(toks@)[pos as int] == toks@[pos as int]@);
        }
        let is_neg = match &toks[pos] {
            Tok::Op(o) => str_eq(o.as_str(), "-"),
            _ => false,
        };
        let is_not = match &toks[pos] {
            Tok::Op(o) => str_eq(o.as_str(), "!"),
            _ => false,
        };
        if is_neg || is_not {
            let o = if is_neg {
                copy_str("-")
            } else {
                copy_str("!")
            };
            match parse_unary(toks, pos + 1) {
                Ok((x, p1)) => {
                    let ghost xv = node_view(x);
                    let n = Node::Unary(o, Box::new(x));
                    proof {
                        assert(node_view(n) == NodeV::Unary(o@, Box::new(xv)));
                    }
                    return Ok((n, p1));
                },
                Err(e) => {
                    return Err(e);
                },
            }
        }
    }
    parse_primary(toks, pos)
}

fn parse_args(toks: &Vec<Tok>, pos: usize) -> (r: Result<(Vec<Node>, usize), ParseError>)
    requires
        pos <= toks@.len(),
    ensures
        match p_args(toks_view(toks@), pos as int, Seq::empty()) {
            Ok((args, p)) => r matches Ok(x) && nodes_view(x.0@) == args && x.1 == p && pos <= p <= toks@.len(),
            Err(e) => r matches Err(x) && x@ == e,
        },
    decreases toks@.len() - pos, 19int, 1int,
{
    let mut args: Vec<Node> = Vec::new();
    let mut p = pos;
    proof {
        assert(nodes_view(args@) =~= Seq::<NodeV>::empty());
    }
    loop
        invariant
            pos <= p <= toks@.len(),
            p_args(toks_view(toks@), p as int, nodes_view(args@)) == p_args(toks_view(toks@), pos as int, Seq::empty()),
        decreases toks@.len() - p,
    {
        let ghost acc = nodes_view(args@);
        match parse_level(toks, p, 0) {
            Ok((a, p1)) => {
                let ghost av = node_view(a);
                let ghost old_args = args@;
                args.push(a);
                proof {
                    lemma_nodes_view_push(old_args, a);
                    assert(args@ == old_args.push(a));
                    assert(nodes_view(args@) == acc.push(av));
                }
                if p1 < toks.len() && matches!(toks[p1], Tok::Comma) {
                    proof {
                        assert(toks_view(toks@)[p1 as int] == toks@[p1 as int]@);
                    }
                    p = p1 + 1;
                } else {
                    proof {
                        if p1 < toks@.len() {
                            assert(toks_view(toks@)[p1 as int] == toks@[p1 as int]@);
                        }
                    }
                    return Ok((args, p1));
                }
            },
            Err(e) => {
                return Err(e);
            },
        }
    }
}

proof fn lemma_nodes_view_push(s: Seq<Node>, x: Node)
    ensures
        nodes_view(s.push(x)) == nodes_view(s).push(node_view(x)),
    decreases s.len(),
{
    if s.len() == 0 {
        assert(s.push(x).subrange(1, 1) =~= Seq::<Node>::empty());
        assert(nodes_view(Seq::<Node>::empty()) =~= Seq::<NodeV>::empty());
        assert(s.push(x)[0] == x);
        assert(nodes_view(s.push(x)) == seq![node_view(x)] + nodes_view(Seq::<Node>::empty()));
        assert(nodes_view(s) =~= Seq::<NodeV>::empty());
        assert(nodes_view(s.push(x)) =~= seq![node_view(x)]);
    } else {
        let t = s.push(x);
        assert(t.subrange(1, t.len() as int) =~= s.subrange(1, s.len() as int).push(x));
        lemma_nodes_view_push(s.subrange(1, s.len() as int), x);
        assert(t[0] == s[0]);
    }
}

fn parse_primary(toks: &Vec<Tok>, pos: usize) -> (r: Result<(Node, usize), ParseError>)
    requires
        pos <= toks@.len(),
    ensures
        pres_is(r, p_primary(toks_view(toks@), pos as int)),
        r matches Ok(x) ==> pos < x.1 <= toks@.len(),
    decreases toks@.len() - pos, 1int, 1int,
{
    let ghost t = toks_view(toks@);
    if pos >= toks.len() {
        return Err(ParseError::Unexpected(None));
    }
    proof {
        assert(t[pos as int] == toks@[pos as int]@);
    }
    match &toks[pos] {
        Tok::Num(n) => Ok((Node::Num(*n), pos + 1)),
        Tok::Str(s) => Ok((Node::Str(s.clone()), pos + 1)),
        Tok::Org(o) => Ok((Node::OrgRef(o.clone()), pos + 1)),
        Tok::True => Ok((Node::Bool(true), pos + 1)),
        Tok::False => Ok((Node::Bool(false), pos + 1)),
        Tok::Null => Ok((Node::Null, pos + 1)),
        Tok::LParen => {
            match parse_level(toks, pos + 1, 0) {
                Ok((e, p1)) => {
                    if p1 < toks.len() && matches!(toks[p1], Tok::RParen) {
                        proof {
                            assert(t[p1 as int] == toks@[p1 as int]@);
                        }
                        Ok((e, p1 + 1))
                    } else {
                        proof {
                            if p1 < toks@.len() {
                                assert(t[p1 as int] == toks@[p1 as int]@);
                            }
                        }
                        Err(ParseError::MissingRParen)
                    }
                },
                Err(err) => Err(err),
            }
        },
        Tok::Ident(name) => {
            let next_is_lparen = pos + 1 < toks.len() && matches!(toks[pos + 1], Tok::LParen);
            proof {
                if pos + 1 < toks@.len() {
                    assert(t[pos + 1] == toks@[pos + 1]@);
                }
            }
            if next_is_lparen {
                let fname = upper_string(name.as_str());
                let empty_args = pos + 2 < toks.len() && matches!(toks[pos + 2], Tok::RParen);
                proof {
                    if pos + 2 < toks@.len() {
                        assert(t[pos + 2] == toks@[pos + 2]@);
                    }
                }
                if empty_args {
                    let n = Node::Call(fname, Vec::new());
                    proof {
                        assert(nodes_view(Seq::<Node>::empty()) =~= Seq::<NodeV>::empty());
                    }
                    return Ok((n, pos + 3));
                }
                match parse_args(toks, pos + 2) {
                    Ok((args, p1)) => {
                        if p1 < toks.len() && matches!(toks[p1], Tok::RParen) {
                            proof {
                                assert(t[p1 as int] == toks@[p1 as int]@);
                            }
                            Ok((Node::Call(fname, args), p1 + 1))
                        } else {
                            proof {
                                if p1 < toks@.len() {
                                    assert(t[p1 as int] == toks@[p1 as int]@);
                                }
                            }
                            Err(ParseError::CallMissingRParen)
                        }
                    },
                    Err(e) => Err(e),
                }
            } else if is_cell_ref(name.as_str()) {
                let next_is_colon = pos + 1 < toks.len() && matches!(toks[pos + 1], Tok::Colon);
                if next_is_colon {
                    let end_tok = tok_at_exec(toks, pos + 2);
                    match &end_tok {
                        Some(Tok::Ident(end)) => {
                            if is_cell_ref(end.as_str()) {
                                Ok((Node::Range(upper_string(name.as_str()), upper_string(end.as_str())), pos + 3))
                            } else {
                                Err(ParseError::BadRangeEnd(end_tok))
                            }
                        },
                        _ => Err(ParseError::BadRangeEnd(end_tok)),
                    }
                } else {
                    Ok((Node::Cell(upper_string(name.as_str())), pos + 1))
                }
            } else {
                Ok((Node::Ident(name.clone()), pos + 1))
            }
        },
        other => Err(ParseError::Unexpected(Some(other.clone()))),
    }
}

/// Parses a formula into its syntax tree.
pub fn parse(expr: &str) -> (r: Result<Node, ParseError>)
    ensures
        match parse_spec(expr@) {
            Ok(n) => r matches Ok(x) && node_view(x) == n,
            Err(e) => r matches Err(x) && x@ == e,
        },
{
    let toks = match lex(expr) {
        Ok(t) => t,
        Err(e) => {
            return Err(ParseError::Lex(e));
        },
    };
    match parse_level(&toks, 0, 0) {
        Ok((n, p)) => {
            if p != toks.len() {
                return Err(ParseError::Trailing(p));
            }
            Ok(n)
        },
        Err(e) => Err(e),
    }
}

} // verus!
