//! The period-close workflow: a fixed sequence of steps (collect, reconcile,
//! consolidate, review, statements), advanced one at a time, the review step held
//! until approved.
use vstd::prelude::*;
use crate::text::{copy_str, push_char, append_str, str_eq};

verus! {

/// The code of a close run: `{scheme}-{period}` (one run per scheme and period).
pub fn run_code_of(scheme: &str, period: &str) -> (r: String)
    ensures
        r@ == scheme@ + seq!['-'] + period@,
{
    let mut s = copy_str(scheme);
    push_char(&mut s, '-');
    append_str(&mut s, period);
    s
}

/// A step of the close.
#[derive(Clone, Copy, Debug, PartialEq, Eq, Structural)]
pub enum CloseStep {
    Collect,
    Reconcile,
    Consolidate,
    Review,
    Statements,
}

/// The stored name of a step.
pub open spec fn step_text(s: CloseStep) -> Seq<char> {
    match s {
        CloseStep::Collect => "collect"@,
        CloseStep::Reconcile => "reconcile"@,
        CloseStep::Consolidate => "consolidate"@,
        CloseStep::Review => "review"@,
        CloseStep::Statements => "statements"@,
    }
}

/// The step a stored name names.
pub open spec fn step_of_text(t: Seq<char>) -> Option<CloseStep> {
    if t == "collect"@ {
        Some(CloseStep::Collect)
    } else if t == "reconcile"@ {
        Some(CloseStep::Reconcile)
    } else if t == "consolidate"@ {
        Some(CloseStep::Consolidate)
    } else if t == "review"@ {
        Some(CloseStep::Review)
    } else if t == "statements"@ {
        Some(CloseStep::Statements)
    } else {
        None
    }
}

/// The step after another, None after the last one.
pub open spec fn next_step_spec(s: CloseStep) -> Option<CloseStep> {
    match s {
        CloseStep::Collect => Some(CloseStep::Reconcile),
        CloseStep::Reconcile => Some(CloseStep::Consolidate),
        CloseStep::Consolidate => Some(CloseStep::Review),
        CloseStep::Review => Some(CloseStep::Statements),
        CloseStep::Statements => None,
    }
}

/// The run status while a step is pending.
pub open spec fn status_for(s: CloseStep) -> Seq<char> {
    match s {
        CloseStep::Collect => "collecting"@,
        CloseStep::Reconcile => "reconciling"@,
        CloseStep::Consolidate => "consolidating"@,
        CloseStep::Review => "reviewing"@,
        CloseStep::Statements => "consolidating"@,
    }
}

impl CloseStep {
    /// The stored name.
    pub fn as_str(self) -> (r: &'static str)
        ensures
            r@ == step_text(self),
    {
        match self {
            CloseStep::Collect => "collect",
            CloseStep::Reconcile => "reconcile",
            CloseStep::Consolidate => "consolidate",
            CloseStep::Review => "review",
            CloseStep::Statements => "statements",
        }
    }

    /// The step a stored name names.
    pub fn parse(t: &str) -> (r: Option<CloseStep>)
        ensures
            r == step_of_text(t@),
    {
        if str_eq(t, "collect") {
            Some(CloseStep::Collect)
        } else if str_eq(t, "reconcile") {
            Some(CloseStep::Reconcile)
        } else if str_eq(t, "consolidate") {
            Some(CloseStep::Consolidate)
        } else if str_eq(t, "review") {
            Some(CloseStep::Review)
        } else if str_eq(t, "statements") {
            Some(CloseStep::Statements)
        } else {
            None
        }
    }
}

/// Why a step cannot be run now.
#[derive(Debug, PartialEq, Eq)]
pub enum CloseError {
    /// The run is closed; it must be reopened first.
    AlreadyClosed,
    /// The step asked for is not the current one.
    NotCurrent { current: String, requested: String },
    /// The current step is not a step of the close.
    UnknownStep(String),
}

/// Which step an advance runs: the current one (the one asked for must be it), unless
/// the run is closed or its current step is unknown.
pub open spec fn gate_spec(run_status: Seq<char>, current: Seq<char>, requested: Option<Seq<char>>) -> Result<CloseStep, ()> {
    if run_status == "closed"@ {
        Err(())
    } else if (requested matches Some(t) && t != current) {
        Err(())
    } else {
        match step_of_text(current) {
            Some(s) => Ok(s),
            None => Err(()),
        }
    }
}

/// Checks an advance request: the step to run, or why none is.
pub fn close_gate(run_status: &str, current: &str, requested: Option<&str>) -> (r: Result<CloseStep, CloseError>)
    ensures
        match r {
            Ok(s) => gate_spec(run_status@, current@, match requested {
                Some(t) => Some(t@),
                None => None,
            }) == Ok::<CloseStep, ()>(s),
            Err(CloseError::AlreadyClosed) => run_status@ == "closed"@,
            Err(CloseError::NotCurrent { current: c, requested: t }) => run_status@ != "closed"@
                && (requested matches Some(q) && q@ != current@ && c@ == current@ && t@ == q@),
            Err(CloseError::UnknownStep(c)) => run_status@ != "closed"@ && (requested matches Some(q) ==> q@ == current@)
                && step_of_text(current@) is None && c@ == current@,
        },
        (r is Ok) == (gate_spec(run_status@, current@, match requested {
            Some(t) => Some(t@),
            None => None,
        }) is Ok),
{
    if str_eq(run_status, "closed") {
        return Err(CloseError::AlreadyClosed);
    }
    if let Some(t) = requested {
        if !str_eq(t, current) {
            return Err(CloseError::NotCurrent { current: copy_str(current), requested: copy_str(t) });
        }
    }
    match CloseStep::parse(current) {
        Some(s) => Ok(s),
        None => Err(CloseError::UnknownStep(copy_str(current))),
    }
}

/// Where a run goes once a step is done: the next step and the status it waits in,
/// or `closed` after the last step.
pub open spec fn after_spec(s: CloseStep) -> (Seq<char>, Seq<char>, bool) {
    match next_step_spec(s) {
        Some(n) => (step_text(n), status_for(n), false),
        None => ("closed"@, "closed"@, true),
    }
}

/// The next step, its status, and whether the run is now closed.
pub fn after_step(s: CloseStep) -> (r: (String, String, bool))
    ensures
        (r.0@, r.1@, r.2) == after_spec(s),
{
    match s {
        CloseStep::Collect => (copy_str("reconcile"), copy_str("reconciling"), false),
        CloseStep::Reconcile => (copy_str("consolidate"), copy_str("consolidating"), false),
        CloseStep::Consolidate => (copy_str("review"), copy_str("reviewing"), false),
        CloseStep::Review => (copy_str("statements"), copy_str("consolidating"), false),
        CloseStep::Statements => (copy_str("closed"), copy_str("closed"), true),
    }
}

/// The review step holds the run until it is approved: then it is done like any
/// other step; otherwise the run waits in `reviewing`.
pub fn review_passes(s: CloseStep, approve: bool) -> (r: bool)
    ensures
        r == (s != CloseStep::Review || approve),
{
    !matches!(s, CloseStep::Review) || approve
}

/// A close run that starts at `collect` and completes each step in turn is closed
/// after exactly five steps, passing collect, reconcile, consolidate, review and
/// statements in that order.
pub proof fn lemma_close_sequence()
    ensures
        step_of_text(after_spec(CloseStep::Collect).0) == Some(CloseStep::Reconcile),
        step_of_text(after_spec(CloseStep::Reconcile).0) == Some(CloseStep::Consolidate),
        step_of_text(after_spec(CloseStep::Consolidate).0) == Some(CloseStep::Review),
        step_of_text(after_spec(CloseStep::Review).0) == Some(CloseStep::Statements),
        after_spec(CloseStep::Statements) == ("closed"@, "closed"@, true),
        forall|s: CloseStep| s != CloseStep::Statements ==> !(#[trigger] after_spec(s)).2,
{
    reveal_strlit("reconcile");
    reveal_strlit("consolidate");
    reveal_strlit("review");
    reveal_strlit("statements");
    reveal_strlit("collect");
    assert("collect"@.len() == 7 && "reconcile"@.len() == 9 && "consolidate"@.len() == 11);
    assert("review"@.len() == 6 && "statements"@.len() == 10);
    assert("reconcile"@ != "collect"@);
    assert("consolidate"@ != "collect"@ && "consolidate"@ != "reconcile"@);
    assert("review"@ != "collect"@ && "review"@ != "reconcile"@ && "review"@ != "consolidate"@);
    assert("statements"@ != "collect"@ && "statements"@ != "reconcile"@ && "statements"@ != "consolidate"@
        && "statements"@ != "review"@);
}

} // verus!
