//! Types of verification-condition expressions and the constants they hold.
use vstd::prelude::*;
use std::cmp::Ordering;

verus! {

/// Width of a bit vector.
#[derive(Clone, Debug, PartialEq, Eq, Hash, Structural)]
pub enum Width {
    Unknown,
    Bits(usize),
}

/// Order of widths: an unknown width is below every known width, and two
/// known widths are comparable only when equal.
pub open spec fn width_cmp(l: Width, r: Width) -> Option<Ordering> {
    match (l, r) {
        (Width::Unknown, Width::Unknown) => Some(Ordering::Equal),
        (Width::Unknown, Width::Bits(_)) => Some(Ordering::Less),
        (Width::Bits(_), Width::Unknown) => Some(Ordering::Greater),
        (Width::Bits(a), Width::Bits(b)) => if a == b {
            Some(Ordering::Equal)
        } else {
            None
        },
    }
}

impl Width {
    pub fn as_bits(&self) -> (r: Option<usize>)
        ensures
            r == (match *self {
                Width::Unknown => None,
                Width::Bits(b) => Some(b),
            }),
    {
        match self {
            Width::Unknown => None,
            Width::Bits(bits) => Some(*bits),
        }
    }
}

impl PartialOrd for Width {
    fn partial_cmp(&self, other: &Self) -> (r: Option<Ordering>)
        ensures
            r == width_cmp(*self, *other),
    {
        match (self, other) {
            (Width::Unknown, Width::Unknown) => Some(Ordering::Equal),
            (Width::Unknown, Width::Bits(_)) => Some(Ordering::Less),
            (Width::Bits(_), Width::Unknown) => Some(Ordering::Greater),
            (Width::Bits(l), Width::Bits(r)) => if *l == *r {
                Some(Ordering::Equal)
            } else {
                None
            },
        }
    }
}

impl vstd::std_specs::cmp::PartialOrdSpecImpl for Width {
    open spec fn obeys_partial_cmp_spec() -> bool {
        true
    }

    open spec fn partial_cmp_spec(&self, other: &Width) -> Option<Ordering> {
        width_cmp(*self, *other)
    }
}

/// Type of a verification-condition expression.
#[derive(Clone, Debug, PartialEq, Eq, Hash, Structural)]
pub enum Type {
    Unspecified,
    Unknown,
    BitVector(Width),
    Int,
    Bool,
    Unit,
}

/// Order of types, from less to more specific. `Unspecified` is comparable
/// only with itself; `Unknown` is below every other type; bit vectors are
/// ordered by width; the remaining types are comparable only with themselves.
pub open spec fn type_cmp(l: Type, r: Type) -> Option<Ordering> {
    match (l, r) {
        (Type::Unspecified, Type::Unspecified) => Some(Ordering::Equal),
        (Type::Unspecified, _) => None,
        (_, Type::Unspecified) => None,
        (Type::Unknown, Type::Unknown) => Some(Ordering::Equal),
        (Type::Unknown, _) => Some(Ordering::Less),
        (_, Type::Unknown) => Some(Ordering::Greater),
        (Type::BitVector(a), Type::BitVector(b)) => width_cmp(a, b),
        (Type::Int, Type::Int) => Some(Ordering::Equal),
        (Type::Bool, Type::Bool) => Some(Ordering::Equal),
        (Type::Unit, Type::Unit) => Some(Ordering::Equal),
        _ => None,
    }
}

/// A type is concrete when it leaves nothing to infer.
pub open spec fn type_is_concrete(t: Type) -> bool {
    match t {
        Type::Unknown => false,
        Type::BitVector(Width::Unknown) => false,
        _ => true,
    }
}

/// Two types are compatible when either is unknown or both have the same kind.
pub open spec fn types_compatible(l: Type, r: Type) -> bool {
    match (l, r) {
        (Type::Unknown, _) => true,
        (_, Type::Unknown) => true,
        (Type::Unspecified, Type::Unspecified) => true,
        (Type::Unit, Type::Unit) => true,
        (Type::Bool, Type::Bool) => true,
        (Type::Int, Type::Int) => true,
        (Type::BitVector(_), Type::BitVector(_)) => true,
        _ => false,
    }
}

impl Type {
    pub fn is_concrete(&self) -> (r: bool)
        ensures
            r == type_is_concrete(*self),
    {
        match self {
            Type::Unspecified => true,
            Type::Unknown => false,
            Type::BitVector(Width::Unknown) => false,
            Type::BitVector(Width::Bits(_)) => true,
            Type::Int => true,
            Type::Bool => true,
            Type::Unit => true,
        }
    }

    pub fn as_bit_vector_width(&self) -> (r: Option<&Width>)
        ensures
            match *self {
                Type::BitVector(w) => r is Some && *r->0 == w,
                _ => r is None,
            },
    {
        match self {
            Type::BitVector(w) => Some(w),
            _ => None,
        }
    }

    pub fn is_compatible_with(&self, other: &Type) -> (r: bool)
        ensures
            r == types_compatible(*self, *other),
    {
        match (self, other) {
            (Type::Unknown, _) => true,
            (_, Type::Unknown) => true,
            (Type::Unspecified, Type::Unspecified) => true,
            (Type::Unit, Type::Unit) => true,
            (Type::Bool, Type::Bool) => true,
            (Type::Int, Type::Int) => true,
            (Type::BitVector(_), Type::BitVector(_)) => true,
            _ => false,
        }
    }
}

impl PartialOrd for Type {
    fn partial_cmp(&self, other: &Self) -> (r: Option<Ordering>)
        ensures
            r == type_cmp(*self, *other),
    {
        match (self, other) {
            (Type::Unspecified, Type::Unspecified) => Some(Ordering::Equal),
            (Type::Unspecified, _) => None,
            (_, Type::Unspecified) => None,
            (Type::Unknown, Type::Unknown) => Some(Ordering::Equal),
            (Type::Unknown, _) => Some(Ordering::Less),
            (_, Type::Unknown) => Some(Ordering::Greater),
            (Type::BitVector(l), Type::BitVector(r)) => l.partial_cmp(r),
            (Type::Int, Type::Int) => Some(Ordering::Equal),
            (Type::Bool, Type::Bool) => Some(Ordering::Equal),
            (Type::Unit, Type::Unit) => Some(Ordering::Equal),
            _ => None,
        }
    }
}

impl vstd::std_specs::cmp::PartialOrdSpecImpl for Type {
    open spec fn obeys_partial_cmp_spec() -> bool {
        true
    }

    open spec fn partial_cmp_spec(&self, other: &Type) -> Option<Ordering> {
        type_cmp(*self, *other)
    }
}

/// The order on types is a partial order: reflexive, antisymmetric and
/// transitive, and each comparison agrees with its converse.
pub proof fn lemma_type_partial_order(a: Type, b: Type, c: Type)
    ensures
        type_cmp(a, a) == Some(Ordering::Equal),
        type_cmp(a, b) == Some(Ordering::Equal) <==> a == b,
        type_cmp(a, b) == Some(Ordering::Less) <==> type_cmp(b, a) == Some(Ordering::Greater),
        type_cmp(a, b) is None <==> type_cmp(b, a) is None,
        type_cmp(a, b) == Some(Ordering::Less) && type_cmp(b, c) == Some(Ordering::Less)
            ==> type_cmp(a, c) == Some(Ordering::Less),
{
}

/// The order on widths is a partial order in the same sense.
pub proof fn lemma_width_partial_order(a: Width, b: Width, c: Width)
    ensures
        width_cmp(a, a) == Some(Ordering::Equal),
        width_cmp(a, b) == Some(Ordering::Equal) <==> a == b,
        width_cmp(a, b) == Some(Ordering::Less) <==> width_cmp(b, a) == Some(Ordering::Greater),
        width_cmp(a, b) is None <==> width_cmp(b, a) is None,
        width_cmp(a, b) == Some(Ordering::Less) && width_cmp(b, c) == Some(Ordering::Less)
            ==> width_cmp(a, c) == Some(Ordering::Less),
{
}

/// A constant value of a verification-condition expression. A bit-vector
/// constant carries its width and its unsigned value.
#[derive(Clone, Copy, Debug, PartialEq, Eq, Hash, Structural)]
pub enum Const {
    Bool(bool),
    Int(i128),
    BitVector(usize, u128),
    Unspecified,
}

impl Const {
    pub fn ty(&self) -> (r: Type)
        ensures
            r == (match *self {
                Const::Bool(_) => Type::Bool,
                Const::Int(_) => Type::Int,
                Const::BitVector(w, _) => Type::BitVector(Width::Bits(w)),
                Const::Unspecified => Type::Unspecified,
            }),
    {
        match self {
            Const::Bool(_) => Type::Bool,
            Const::Int(_) => Type::Int,
            Const::BitVector(w, _) => Type::BitVector(Width::Bits(*w)),
            Const::Unspecified => Type::Unspecified,
        }
    }

    pub fn as_bool(&self) -> (r: Option<bool>)
        ensures
            r == (match *self {
                Const::Bool(b) => Some(b),
                _ => None,
            }),
    {
        match self {
            Const::Bool(b) => Some(*b),
            _ => None,
        }
    }

    pub fn as_int(&self) -> (r: Option<i128>)
        ensures
            r == (match *self {
                Const::Int(v) => Some(v),
                _ => None,
            }),
    {
        match self {
            Const::Int(v) => Some(*v),
            _ => None,
        }
    }
}

} // verus!
