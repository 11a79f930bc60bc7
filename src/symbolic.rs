//! Symbolic values: the shape of a typed runtime value, with expression ids
//! at its leaves.
use vstd::prelude::*;
use crate::expr::ExprId;

verus! {

/// Optional value: a boolean presence flag and the inner value.
#[derive(Debug)]
pub struct SymbolicOption {
    pub some: ExprId,
    pub inner: Box<Symbolic>,
}

/// Named field of a struct value.
#[derive(Debug)]
pub struct SymbolicField {
    pub name: String,
    pub value: Symbolic,
}

/// Enum value: an integer discriminant and a value for every variant, of
/// which only the one the discriminant selects is live.
#[derive(Debug)]
pub struct SymbolicEnum {
    pub ty: usize,
    pub discriminant: ExprId,
    pub variants: Vec<SymbolicVariant>,
}

/// One variant of an enum value.
#[derive(Debug)]
pub struct SymbolicVariant {
    pub name: String,
    pub id: usize,
    pub discriminant: usize,
    pub value: Symbolic,
}

#[derive(Debug)]
pub enum Symbolic {
    Scalar(ExprId),
    Struct(Vec<SymbolicField>),
    Enum(SymbolicEnum),
    Option(SymbolicOption),
    Tuple(Vec<Symbolic>),
}

/// Variants are numbered in order: the discriminant of each is its index.
pub open spec fn variants_numbered(vs: Seq<SymbolicVariant>) -> bool {
    forall|i: int| 0 <= i < vs.len() ==> (#[trigger] vs[i]).discriminant == i
}

impl Symbolic {
    pub fn as_scalar(&self) -> (r: Option<ExprId>)
        ensures
            r == (match *self {
                Symbolic::Scalar(x) => Some(x),
                _ => None,
            }),
    {
        match self {
            Symbolic::Scalar(x) => Some(*x),
            _ => None,
        }
    }
}

impl SymbolicEnum {
    /// Check that the variants are numbered in order.
    pub fn validate(&self) -> (r: bool)
        ensures
            r == variants_numbered(self.variants@),
    {
        let mut i: usize = 0;
        while i < self.variants.len()
            invariant
                i <= self.variants@.len(),
                forall|k: int| 0 <= k < i ==> (#[trigger] self.variants@[k]).discriminant == k,
            decreases self.variants@.len() - i,
        {
            if self.variants[i].discriminant != i {
                return false;
            }
            i = i + 1;
        }
        true
    }
}

} // verus!
