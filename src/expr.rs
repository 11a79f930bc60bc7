//! Scalar expressions of verification conditions, referenced by index.
use vstd::prelude::*;
use crate::types::Const;

verus! {

/// The id of an expression within verification conditions.
#[derive(Clone, Copy, Debug, PartialEq, Eq, Hash, Structural)]
pub struct ExprId(pub usize);

impl ExprId {
    pub fn index(&self) -> (r: usize)
        ensures
            r == self.0,
    {
        self.0
    }
}

/// The id of a variable within verification conditions.
#[derive(Clone, Copy, Debug, PartialEq, Eq, Hash, Structural)]
pub struct VariableId(pub usize);

impl VariableId {
    pub fn index(&self) -> (r: usize)
        ensures
            r == self.0,
    {
        self.0
    }
}

/// Operators of one operand.
#[derive(Clone, Copy, Debug, PartialEq, Eq, Hash, Structural)]
pub enum UnaryOp {
    Not,
    BVNot,
    BVNeg,
    Cls,
    Clz,
    Rev,
    Popcnt,
    BV2Nat,
    WidthOf,
    FPPositiveInfinity,
    FPNegativeInfinity,
    FPPositiveZero,
    FPNegativeZero,
    FPNaN,
    FPNeg,
    FPCeil,
    FPFloor,
    FPSqrt,
    FPTrunc,
    FPNearest,
    FPIsZero,
    FPIsInfinite,
    FPIsNaN,
    FPIsNegative,
    FPIsPositive,
}

/// Operators of two operands. For the width conversions (`BVZeroExt`,
/// `BVSignExt`, `BVConvTo`, `Int2BV`, `ToFP`, `ToFPUnsigned`, `ToFPFromFP`,
/// `FPToUBV`, `FPToSBV`) the first operand is the destination width.
#[derive(Clone, Copy, Debug, PartialEq, Eq, Hash, Structural)]
pub enum BinaryOp {
    And,
    Or,
    Imp,
    Eq,
    Lt,
    Lte,
    Add,
    Sub,
    Mul,
    BVUgt,
    BVUge,
    BVUlt,
    BVUle,
    BVSgt,
    BVSge,
    BVSlt,
    BVSle,
    BVSaddo,
    BVAdd,
    BVSub,
    BVMul,
    BVSDiv,
    BVUDiv,
    BVSRem,
    BVURem,
    BVAnd,
    BVOr,
    BVXor,
    BVShl,
    BVLShr,
    BVAShr,
    BVRotl,
    BVRotr,
    BVZeroExt,
    BVSignExt,
    BVConvTo,
    BVConcat,
    Int2BV,
    ToFP,
    ToFPUnsigned,
    ToFPFromFP,
    FPToUBV,
    FPToSBV,
    FPEq,
    FPNe,
    FPLt,
    FPGt,
    FPLe,
    FPGe,
    FPAdd,
    FPSub,
    FPMul,
    FPDiv,
    FPMin,
    FPMax,
}

/// A scalar expression. Operands are ids of earlier expressions.
#[derive(Clone, Debug, PartialEq, Eq, Hash, Structural)]
pub enum Expr {
    Const(Const),
    Variable(VariableId),
    Unary(UnaryOp, ExprId),
    Binary(BinaryOp, ExprId, ExprId),
    Conditional(ExprId, ExprId, ExprId),
    /// Bits `high` down to `low` of the operand.
    BVExtract(usize, usize, ExprId),
}

/// The operands of an expression, in order.
pub open spec fn expr_sources(e: Expr) -> Seq<ExprId> {
    match e {
        Expr::Const(_) => seq![],
        Expr::Variable(_) => seq![],
        Expr::Unary(_, x) => seq![x],
        Expr::Binary(_, x, y) => seq![x, y],
        Expr::Conditional(c, t, f) => seq![c, t, f],
        Expr::BVExtract(_, _, x) => seq![x],
    }
}

/// Pure expressions may be shared; a conversion to a width that may be wider
/// introduces fresh padding bits, so two of them are never the same value.
pub open spec fn expr_pure(e: Expr) -> bool {
    match e {
        Expr::Binary(BinaryOp::BVConvTo, _, _) => false,
        _ => true,
    }
}

impl Expr {
    pub fn is_variable(&self) -> (r: bool)
        ensures
            r == (*self is Variable),
    {
        match self {
            Expr::Variable(_) => true,
            _ => false,
        }
    }

    pub fn pure(&self) -> (r: bool)
        ensures
            r == expr_pure(*self),
    {
        match self {
            Expr::Binary(BinaryOp::BVConvTo, _, _) => false,
            _ => true,
        }
    }

    pub fn sources(&self) -> (r: Vec<ExprId>)
        ensures
            r@ == expr_sources(*self),
    {
        match self {
            Expr::Const(_) => Vec::new(),
            Expr::Variable(_) => Vec::new(),
            Expr::Unary(_, x) => vec![*x],
            Expr::Binary(_, x, y) => vec![*x, *y],
            Expr::Conditional(c, t, f) => vec![*c, *t, *f],
            Expr::BVExtract(_, _, x) => vec![*x],
        }
    }
}

} // verus!
