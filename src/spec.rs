//! Term specifications and the expressions of the spec language, as the
//! verification-condition builder consumes them.
use vstd::prelude::*;
use crate::expr::{BinaryOp, UnaryOp};
use crate::types::Const;

verus! {

/// An expression of the spec language.
#[derive(Debug)]
pub enum SpecExpr {
    Var(String),
    Const(Const),
    Unary(UnaryOp, Box<SpecExpr>),
    Binary(BinaryOp, Box<SpecExpr>, Box<SpecExpr>),
    /// `a > b`, which is `b < a`.
    Gt(Box<SpecExpr>, Box<SpecExpr>),
    /// `a >= b`, which is `b <= a`.
    Gte(Box<SpecExpr>, Box<SpecExpr>),
    Conditional(Box<SpecExpr>, Box<SpecExpr>, Box<SpecExpr>),
    /// `op` applied to one or more operands, from the left: `And`, `Or` or
    /// `BVConcat` of any number of terms.
    Variadic(BinaryOp, Vec<SpecExpr>),
}

/// Number of nodes of a spec expression.
pub open spec fn spec_size(e: SpecExpr) -> nat
    decreases e,
{
    match e {
        SpecExpr::Var(_) => 1,
        SpecExpr::Const(_) => 1,
        SpecExpr::Unary(_, a) => 1 + spec_size(*a),
        SpecExpr::Binary(_, a, b) => 1 + spec_size(*a) + spec_size(*b),
        SpecExpr::Gt(a, b) => 1 + spec_size(*a) + spec_size(*b),
        SpecExpr::Gte(a, b) => 1 + spec_size(*a) + spec_size(*b),
        SpecExpr::Conditional(c, a, b) => 1 + spec_size(*c) + spec_size(*a) + spec_size(*b),
        SpecExpr::Variadic(_, es) => 1 + es@.len() + specs_size(es@),
    }
}

/// Total number of nodes of a sequence of spec expressions.
pub open spec fn specs_size(es: Seq<SpecExpr>) -> nat
    decreases es,
{
    if es.len() == 0 {
        0
    } else {
        specs_size(es.drop_last()) + spec_size(es.last())
    }
}

/// The contract of a term. `args` and `ret` name the term's arguments and
/// result as they appear in its declaration.
#[derive(Debug)]
pub struct TermSpec {
    pub args: Vec<String>,
    pub ret: String,
    pub requires: Vec<SpecExpr>,
    pub matches: Vec<SpecExpr>,
    pub provides: Vec<SpecExpr>,
    pub modifies: Vec<Modifies>,
}

/// A state variable that a term may write: always, or under a condition
/// that its clauses name.
#[derive(Debug)]
pub struct Modifies {
    pub state: String,
    pub cond: Option<String>,
}

impl TermSpec {
    pub open spec fn size(&self) -> nat {
        specs_size(self.requires@) + specs_size(self.matches@) + specs_size(self.provides@)
    }
}

} // verus!
