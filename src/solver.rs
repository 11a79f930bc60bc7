//! Verdicts drawn from solver responses, models read from solver values,
//! and the selection of a solver backend and of the expansions to verify.
use vstd::prelude::*;
use crate::expr::ExprId;
use crate::literal::{LiteralError, const_from_literal, literal_const};
use crate::types::Const;

verus! {

/// A solver's answer to a satisfiability check.
#[derive(Clone, Copy, Debug, PartialEq, Eq, Structural)]
pub enum Response {
    Sat,
    Unsat,
    Unknown,
}

/// Whether the assumptions of an expansion can hold together.
#[derive(Clone, Copy, Debug, PartialEq, Eq, Structural)]
pub enum Applicability {
    Applicable,
    Inapplicable,
    Unknown,
}

impl Applicability {
    /// Satisfiable assumptions make the expansion applicable; unsatisfiable
    /// ones mean it can never fire.
    pub fn from_response(r: Response) -> (a: Applicability)
        ensures
            a == (match r {
                Response::Sat => Applicability::Applicable,
                Response::Unsat => Applicability::Inapplicable,
                Response::Unknown => Applicability::Unknown,
            }),
    {
        match r {
            Response::Sat => Applicability::Applicable,
            Response::Unsat => Applicability::Inapplicable,
            Response::Unknown => Applicability::Unknown,
        }
    }
}

/// A counterexample: a value for every expression of the conditions.
#[derive(Debug)]
pub struct Model {
    pub values: Vec<(ExprId, Const)>,
}

/// Outcome of checking the negated verification condition.
#[derive(Debug)]
pub enum Verification {
    Success,
    Failure(Model),
    Unknown,
}

impl Verification {
    /// An unsatisfiable negation proves the condition; a satisfiable one
    /// fails it with the model the solver gave.
    pub fn from_response(r: Response, model: Model) -> (v: Verification)
        ensures
            match r {
                Response::Sat => v matches Verification::Failure(m) && m.values@ == model.values@,
                Response::Unsat => v is Success,
                Response::Unknown => v is Unknown,
            },
    {
        match r {
            Response::Sat => Verification::Failure(model),
            Response::Unsat => Verification::Success,
            Response::Unknown => Verification::Unknown,
        }
    }
}

/// The recorded verdict of one type instantiation.
#[derive(Clone, Copy, Debug, PartialEq, Eq, Structural)]
pub enum Verdict {
    Inapplicable,
    Success,
    Unknown,
}

/// Why verifying an expansion stopped.
#[derive(Clone, Copy, Debug, PartialEq, Eq, Structural)]
pub enum VerifyError {
    /// The solver could not decide whether the expansion applies.
    ApplicabilityUnknown,
    /// The solver found a counterexample.
    VerificationFailed,
}

/// What to do after a check.
#[derive(Clone, Copy, Debug, PartialEq, Eq, Structural)]
pub enum Step {
    /// Go on to check the verification condition.
    Verify,
    /// Record this verdict.
    Finish(Verdict),
    /// Stop with this error.
    Fail(VerifyError),
}

/// Step after the applicability check: an inapplicable expansion is done,
/// an applicable one is verified, and an unknown answer is an error.
pub fn after_applicability(a: Applicability) -> (s: Step)
    ensures
        s == (match a {
            Applicability::Applicable => Step::Verify,
            Applicability::Inapplicable => Step::Finish(Verdict::Inapplicable),
            Applicability::Unknown => Step::Fail(VerifyError::ApplicabilityUnknown),
        }),
{
    match a {
        Applicability::Applicable => Step::Verify,
        Applicability::Inapplicable => Step::Finish(Verdict::Inapplicable),
        Applicability::Unknown => Step::Fail(VerifyError::ApplicabilityUnknown),
    }
}

/// Step after the verification check: success and an inconclusive answer
/// are recorded, and a counterexample is an error.
pub fn after_verification(v: &Verification) -> (s: Step)
    ensures
        s == (match *v {
            Verification::Success => Step::Finish(Verdict::Success),
            Verification::Unknown => Step::Finish(Verdict::Unknown),
            Verification::Failure(_) => Step::Fail(VerifyError::VerificationFailed),
        }),
{
    match v {
        Verification::Success => Step::Finish(Verdict::Success),
        Verification::Unknown => Step::Finish(Verdict::Unknown),
        Verification::Failure(_) => Step::Fail(VerifyError::VerificationFailed),
    }
}

/// Read a model from the values a solver printed, the `i`-th value being
/// that of expression `i`. Fails on the first value that is no literal.
pub fn model_from_values(values: &Vec<String>) -> (r: Result<Model, LiteralError>)
    requires
        forall|i: int| 0 <= i < values@.len() ==> 4 * (#[trigger] values@[i])@.len() <= usize::MAX,
    ensures
        r is Ok <==> forall|i: int| 0 <= i < values@.len() ==> literal_const((#[trigger] values@[i])@) is Ok,
        r matches Ok(m) ==> {
            &&& m.values@.len() == values@.len()
            &&& forall|i: int| 0 <= i < values@.len() ==> (#[trigger] m.values@[i]).0 == ExprId(i as usize)
                && literal_const(values@[i]@) == Ok::<Const, LiteralError>(m.values@[i].1)
        },
        r matches Err(e) ==> exists|i: int| 0 <= i < values@.len() && literal_const((#[trigger] values@[i])@) == Err::<Const, LiteralError>(e),
{
    let mut out: Vec<(ExprId, Const)> = Vec::new();
    let mut i: usize = 0;
    while i < values.len()
        invariant
            i <= values@.len(),
            forall|j: int| 0 <= j < values@.len() ==> 4 * (#[trigger] values@[j])@.len() <= usize::MAX,
            out@.len() == i,
            forall|j: int| 0 <= j < i ==> (#[trigger] out@[j]).0 == ExprId(j as usize)
                && literal_const(values@[j]@) == Ok::<Const, LiteralError>(out@[j].1),
        decreases values@.len() - i,
    {
        match const_from_literal(values[i].as_str()) {
            Ok(c) => out.push((ExprId(i), c)),
            Err(e) => {
                proof {
                    assert(literal_const(values@[i as int]@) == Err::<Const, LiteralError>(e));
                }
                return Err(e);
            },
        }
        i = i + 1;
    }
    proof {
        assert forall|j: int| 0 <= j < values@.len() implies literal_const((#[trigger] values@[j])@) is Ok by {
            assert(literal_const(values@[j]@) == Ok::<Const, LiteralError>(out@[j].1));
        }
    }
    Ok(Model { values: out })
}


/// What type inference made of one instantiation of an expansion's types.
#[derive(Clone, Copy, Debug, PartialEq, Eq, Structural)]
pub enum SolutionStatus {
    /// Every expression has a concrete type.
    Solved,
    /// An overload conflict makes this instantiation vacuous.
    Inapplicable,
    /// Some width is left ambiguous.
    Underconstrained,
    /// Some expression is ill-typed.
    TypeError,
}

/// Why verifying an expansion's type instantiations stopped.
#[derive(Clone, Copy, Debug, PartialEq, Eq, Structural)]
pub enum SolutionError {
    Underconstrained,
    TypeError,
}

/// What to do with one type instantiation.
#[derive(Clone, Copy, Debug, PartialEq, Eq, Structural)]
pub enum SolutionStep {
    /// Verify it.
    Verify,
    /// Count it as inapplicable and go on.
    Skip,
    /// Stop the run.
    Fail(SolutionError),
}

/// A solved instantiation is verified, an inapplicable one skipped, and an
/// underconstrained or ill-typed one ends the run.
pub open spec fn solution_step(s: SolutionStatus) -> SolutionStep {
    match s {
        SolutionStatus::Solved => SolutionStep::Verify,
        SolutionStatus::Inapplicable => SolutionStep::Skip,
        SolutionStatus::Underconstrained => SolutionStep::Fail(SolutionError::Underconstrained),
        SolutionStatus::TypeError => SolutionStep::Fail(SolutionError::TypeError),
    }
}

/// The step for one type instantiation.
pub fn after_type_inference(s: SolutionStatus) -> (r: SolutionStep)
    ensures
        r == solution_step(s),
        r == (match s {
            SolutionStatus::Solved => SolutionStep::Verify,
            SolutionStatus::Inapplicable => SolutionStep::Skip,
            SolutionStatus::Underconstrained => SolutionStep::Fail(SolutionError::Underconstrained),
            SolutionStatus::TypeError => SolutionStep::Fail(SolutionError::TypeError),
        }),
{
    match s {
        SolutionStatus::Solved => SolutionStep::Verify,
        SolutionStatus::Inapplicable => SolutionStep::Skip,
        SolutionStatus::Underconstrained => SolutionStep::Fail(SolutionError::Underconstrained),
        SolutionStatus::TypeError => SolutionStep::Fail(SolutionError::TypeError),
    }
}

/// Number of entries of `ss` equal to `st`.
pub open spec fn count_status(ss: Seq<SolutionStatus>, st: SolutionStatus) -> nat
    decreases ss.len(),
{
    if ss.len() == 0 {
        0
    } else {
        count_status(ss.drop_last(), st) + if ss.last() == st { 1nat } else { 0nat }
    }
}

pub open spec fn is_fatal(st: SolutionStatus) -> bool {
    st == SolutionStatus::Underconstrained || st == SolutionStatus::TypeError
}

/// The instantiations to verify and those skipped.
#[derive(Clone, Copy, Debug, PartialEq, Eq, Structural)]
pub struct SolutionTally {
    pub solved: usize,
    pub inapplicable: usize,
}

/// Go through the statuses of an expansion's type instantiations: count the
/// solved and the inapplicable ones, or stop at the first fatal one with
/// its index.
pub fn tally_solutions(ss: &Vec<SolutionStatus>) -> (r: Result<SolutionTally, (usize, SolutionError)>)
    ensures
        r is Ok <==> forall|i: int| 0 <= i < ss@.len() ==> !is_fatal(#[trigger] ss@[i]),
        r matches Ok(t) ==> t.solved == count_status(ss@, SolutionStatus::Solved)
            && t.inapplicable == count_status(ss@, SolutionStatus::Inapplicable),
        r matches Err((i, e)) ==> {
            &&& i < ss@.len()
            &&& is_fatal(ss@[i as int])
            &&& (forall|j: int| 0 <= j < i ==> !is_fatal(#[trigger] ss@[j]))
            &&& solution_step(ss@[i as int]) == SolutionStep::Fail(e)
        },
{
    let mut solved: usize = 0;
    let mut inapplicable: usize = 0;
    let mut i: usize = 0;
    while i < ss.len()
        invariant
            i <= ss@.len(),
            forall|j: int| 0 <= j < i ==> !is_fatal(#[trigger] ss@[j]),
            solved == count_status(ss@.take(i as int), SolutionStatus::Solved),
            inapplicable == count_status(ss@.take(i as int), SolutionStatus::Inapplicable),
            solved <= i,
            inapplicable <= i,
        decreases ss@.len() - i,
    {
        proof {
            assert(ss@.take(i as int + 1).drop_last() =~= ss@.take(i as int));
        }
        match after_type_inference(ss[i]) {
            SolutionStep::Verify => {
                solved = solved + 1;
            },
            SolutionStep::Skip => {
                inapplicable = inapplicable + 1;
            },
            SolutionStep::Fail(e) => {
                return Err((i, e));
            },
        }
        i = i + 1;
    }
    proof {
        assert(ss@.take(ss@.len() as int) =~= ss@);
    }
    Ok(SolutionTally { solved, inapplicable })
}

} // verus!
