//! Run-time values of formula evaluation: numbers are decimals; an error value
//! (`#REF!`, `#DIV/0!`-style) propagates through operations instead of counting as 0.
use vstd::prelude::*;
use crate::decimal::{Dec, dec_parse, dec_parse_sci, dec_parse_result, dec_parse_sci_result, dec_text, dec_text_result};
use crate::expand::{trim_spec, is_ws};
use crate::text::{chars_of, copy_str, string_of};

verus! {

/// A value.
#[derive(Debug, PartialEq)]
pub enum FValue {
    Num(Dec),
    Str(String),
    Bool(bool),
    Null,
    /// An error value; operations on it give it back.
    Error(String),
}

/// A value as plain data.
pub enum FVal {
    Num(Dec),
    Str(Seq<char>),
    Bool(bool),
    Null,
    Error(Seq<char>),
}

impl View for FValue {
    type V = FVal;

    open spec fn view(&self) -> FVal {
        match self {
            FValue::Num(n) => FVal::Num(*n),
            FValue::Str(s) => FVal::Str(s@),
            FValue::Bool(b) => FVal::Bool(*b),
            FValue::Null => FVal::Null,
            FValue::Error(e) => FVal::Error(e@),
        }
    }
}

impl Clone for FValue {
    fn clone(&self) -> (r: Self)
        ensures
            r@ == self@,
    {
        match self {
            FValue::Num(n) => FValue::Num(*n),
            FValue::Str(s) => FValue::Str(s.clone()),
            FValue::Bool(b) => FValue::Bool(*b),
            FValue::Null => FValue::Null,
            FValue::Error(e) => FValue::Error(e.clone()),
        }
    }
}

/// The numeric reading of a value: a number itself, true 1 and false 0, a text parsed
/// (trimmed; plain or scientific notation) or 0, null and errors 0.
pub open spec fn as_num_spec(v: FVal) -> Dec {
    match v {
        FVal::Num(n) => n,
        FVal::Bool(b) => if b {
            Dec::one_val()
        } else {
            Dec::zero_val()
        },
        FVal::Str(s) => match dec_parse_result(trim_spec(s)) {
            Some(x) => x,
            None => match dec_parse_sci_result(trim_spec(s)) {
                Some(x) => x,
                None => Dec::zero_val(),
            },
        },
        FVal::Null => Dec::zero_val(),
        FVal::Error(_) => Dec::zero_val(),
    }
}

/// The truth of a value: a non-zero number, a non-empty text, true.
pub open spec fn as_bool_spec(v: FVal) -> bool {
    match v {
        FVal::Bool(b) => b,
        FVal::Num(n) => n.val() != 0,
        FVal::Str(s) => s.len() > 0,
        FVal::Null => false,
        FVal::Error(_) => false,
    }
}

/// The text of a value: a number in its shortest form, `true`/`false`, null empty.
pub open spec fn as_text_spec(v: FVal) -> Seq<char> {
    match v {
        FVal::Str(s) => s,
        FVal::Num(n) => dec_text_result(n),
        FVal::Bool(b) => if b {
            "true"@
        } else {
            "false"@
        },
        FVal::Null => Seq::empty(),
        FVal::Error(e) => e,
    }
}

/// Null or the empty text.
pub open spec fn is_empty_spec(v: FVal) -> bool {
    v is Null || (v matches FVal::Str(s) && s.len() == 0)
}

/// The characters of `s` with white space trimmed at both ends.
fn trimmed(s: &str) -> (r: String)
    ensures
        r@ == trim_spec(s@),
{
    let cs = chars_of(s);
    crate::expand::trim_chars(&cs)
}

impl FValue {
    /// The numeric reading of the value.
    pub fn as_num(&self) -> (r: Dec)
        ensures
            r == as_num_spec(self@),
    {
        match self {
            FValue::Num(n) => *n,
            FValue::Bool(b) => if *b {
                Dec::one()
            } else {
                Dec::zero()
            },
            FValue::Str(s) => {
                let t = trimmed(s.as_str());
                match dec_parse(t.as_str()) {
                    Some(x) => x,
                    None => match dec_parse_sci(t.as_str()) {
                        Some(x) => x,
                        None => Dec::zero(),
                    },
                }
            },
            FValue::Null => Dec::zero(),
            FValue::Error(_) => Dec::zero(),
        }
    }

    /// The truth of the value.
    pub fn as_bool(&self) -> (r: bool)
        ensures
            r == as_bool_spec(self@),
    {
        match self {
            FValue::Bool(b) => *b,
            FValue::Num(n) => !n.is_zero(),
            FValue::Str(s) => !s.as_str().is_empty(),
            FValue::Null => false,
            FValue::Error(_) => false,
        }
    }

    /// The text of the value.
    pub fn as_text(&self) -> (r: String)
        ensures
            r@ == as_text_spec(self@),
    {
        match self {
            FValue::Str(s) => s.clone(),
            FValue::Num(n) => dec_text(*n),
            FValue::Bool(b) => if *b {
                copy_str("true")
            } else {
                copy_str("false")
            },
            FValue::Null => String::new(),
            FValue::Error(e) => e.clone(),
        }
    }

    /// Null or the empty text.
    pub fn is_empty(&self) -> (r: bool)
        ensures
            r == is_empty_spec(self@),
    {
        match self {
            FValue::Null => true,
            FValue::Str(s) => s.as_str().is_empty(),
            _ => false,
        }
    }

    /// Whether an error value.
    pub fn is_error(&self) -> (r: bool)
        ensures
            r == (self@ is Error),
    {
        match self {
            FValue::Error(_) => true,
            _ => false,
        }
    }

    /// The first error among values, if any.
    pub fn first_error(vals: &[FValue]) -> (r: Option<FValue>)
        ensures
            r is Some <==> exists|i: int| 0 <= i < vals@.len() && vals@[i]@ is Error,
            r matches Some(e) ==> exists|i: int|
                0 <= i < vals@.len() && e@ == vals@[i]@ && (forall|j: int| 0 <= j < i ==> !(vals@[j]@ is Error))
                    && vals@[i]@ is Error,
    {
        let mut i: usize = 0;
        while i < vals.len()
            invariant
                i <= vals@.len(),
                forall|j: int| 0 <= j < i ==> !(vals@[j]@ is Error),
            decreases vals@.len() - i,
        {
            if vals[i].is_error() {
                return Some(vals[i].clone());
            }
            i = i + 1;
        }
        None
    }

    /// A number value.
    pub fn num(n: Dec) -> (r: FValue)
        ensures
            r@ == FVal::Num(n),
    {
        FValue::Num(n)
    }
}

} // verus!
