//! Constraints of a rule's pattern as conditions on symbolic values.
use vstd::prelude::*;
use crate::conditions::{BuildError, Conditions, interned, lemma_interned};
use crate::expr::{BinaryOp, Expr, ExprId, UnaryOp};
use crate::symbolic::{Symbolic, SymbolicEnum};
use crate::types::{Const, Type, Width};

verus! {

/// The constant that literal `val` stands for at type `ty`: a boolean from
/// zero or one, an integer, or a bit vector of a known width from a
/// non-negative value.
pub open spec fn typed_const(val: i128, ty: Type) -> Result<Const, BuildError> {
    match ty {
        Type::Bool => if val == 0 {
            Ok(Const::Bool(false))
        } else if val == 1 {
            Ok(Const::Bool(true))
        } else {
            Err(BuildError::BadConstant)
        },
        Type::Int => Ok(Const::Int(val)),
        Type::BitVector(Width::Bits(w)) => if val >= 0 {
            Ok(Const::BitVector(w, val as u128))
        } else {
            Err(BuildError::BadConstant)
        },
        _ => Err(BuildError::BadConstant),
    }
}

/// Index of the first variant of `e` named `name`.
pub open spec fn variant_named(e: SymbolicEnum, name: Seq<char>, i: int) -> bool {
    &&& 0 <= i < e.variants@.len()
    &&& e.variants@[i].name@ == name
    &&& forall|k: int| 0 <= k < i ==> (#[trigger] e.variants@[k]).name@ != name
}

/// Index of the first variant of `e` named `name`.
fn find_variant(e: &SymbolicEnum, name: &String) -> (r: Option<usize>)
    ensures
        match r {
            Some(i) => variant_named(*e, name@, i as int),
            None => forall|j: int| !#[trigger] variant_named(*e, name@, j),
        },
{
    let mut i: usize = 0;
    while i < e.variants.len()
        invariant
            i <= e.variants@.len(),
            forall|k: int| 0 <= k < i ==> (#[trigger] e.variants@[k]).name@ != name@,
        decreases e.variants@.len() - i,
    {
        if e.variants[i].name == *name {
            return Some(i);
        }
        i = i + 1;
    }
    proof {
        assert forall|j: int| !#[trigger] variant_named(*e, name@, j) by {
            if 0 <= j < e.variants@.len() {
                assert(e.variants@[j].name@ != name@);
            }
        }
    }
    None
}

impl Conditions {
    /// Add the constant that literal `val` stands for at type `ty`.
    pub fn spec_typed_value(&mut self, val: i128, ty: &Type) -> (r: Result<ExprId, BuildError>)
        requires
            old(self).wf(),
            old(self).exprs@.len() < usize::MAX,
        ensures
            final(self).wf(),
            final(self).grows_from(old(self)),
            final(self).assumptions == old(self).assumptions,
            final(self).assertions == old(self).assertions,
            final(self).calls == old(self).calls,
            match typed_const(val, *ty) {
                Ok(k) => r matches Ok(x) && (final(self).exprs@, x.0 as int) == interned(old(self).exprs@, Expr::Const(k)),
                Err(e) => r == Err::<ExprId, BuildError>(e) && final(self).exprs == old(self).exprs,
            },
    {
        match ty {
            Type::Bool => {
                if val == 0 {
                    Ok(self.boolean(false))
                } else if val == 1 {
                    Ok(self.boolean(true))
                } else {
                    Err(BuildError::BadConstant)
                }
            },
            Type::Int => Ok(self.constant(Const::Int(val))),
            Type::BitVector(Width::Bits(w)) => {
                if val >= 0 {
                    Ok(self.constant(Const::BitVector(*w, val as u128)))
                } else {
                    Err(BuildError::BadConstant)
                }
            },
            _ => Err(BuildError::BadConstant),
        }
    }

    /// The condition that enum `e` holds its `i`-th variant: its
    /// discriminant equals that variant's.
    pub fn discriminator(&mut self, e: &SymbolicEnum, i: usize) -> (r: ExprId)
        requires
            old(self).wf(),
            old(self).exprs@.len() + 2 < usize::MAX,
            e.discriminant.0 < old(self).exprs@.len(),
            i < e.variants@.len(),
            e.variants@[i as int].discriminant <= i128::MAX,
        ensures
            final(self).wf(),
            final(self).grows_from(old(self)),
            final(self).assumptions == old(self).assumptions,
            final(self).assertions == old(self).assertions,
            final(self).calls == old(self).calls,
            r.0 < final(self).exprs@.len(),
            match final(self).exprs@[r.0 as int] {
                Expr::Binary(BinaryOp::Eq, d, k) => d == e.discriminant && k.0 < final(self).exprs@.len()
                    && final(self).exprs@[k.0 as int] == Expr::Const(Const::Int(e.variants@[i as int].discriminant as i128)),
                _ => false,
            },
    {
        let ghost t0 = self.exprs@;
        let k = self.constant(Const::Int(e.variants[i].discriminant as i128));
        proof {
            lemma_interned(t0, Expr::Const(Const::Int(e.variants@[i as int].discriminant as i128)));
        }
        let ghost t1 = self.exprs@;
        let r = self.exprs_equal(e.discriminant, k);
        proof {
            lemma_interned(t1, Expr::Binary(BinaryOp::Eq, e.discriminant, k));
        }
        r
    }

    /// The condition that an optional value is present: its flag.
    pub fn constraint_some(&self, value: &Symbolic) -> (r: Result<ExprId, BuildError>)
        ensures
            match *value {
                Symbolic::Option(o) => r == Ok::<ExprId, BuildError>(o.some),
                _ => r == Err::<ExprId, BuildError>(BuildError::ShapeMismatch),
            },
    {
        match value {
            Symbolic::Option(o) => Ok(o.some),
            _ => Err(BuildError::ShapeMismatch),
        }
    }

    /// The condition that an enum value holds the variant named `name`.
    pub fn constraint_variant(&mut self, value: &Symbolic, name: &String) -> (r: Result<ExprId, BuildError>)
        requires
            old(self).wf(),
            old(self).exprs@.len() + 2 < usize::MAX,
            *value matches Symbolic::Enum(e) ==> e.discriminant.0 < old(self).exprs@.len()
                && forall|k: int| 0 <= k < e.variants@.len() ==> (#[trigger] e.variants@[k]).discriminant <= i128::MAX,
        ensures
            final(self).wf(),
            final(self).grows_from(old(self)),
            final(self).assumptions == old(self).assumptions,
            final(self).assertions == old(self).assertions,
            final(self).calls == old(self).calls,
            !(*value is Enum) ==> r == Err::<ExprId, BuildError>(BuildError::ShapeMismatch),
            *value matches Symbolic::Enum(e) ==> {
                &&& (r is Ok <==> exists|i: int| variant_named(e, name@, i))
                &&& (r is Err ==> r->Err_0 == BuildError::UnknownVariant)
                &&& (r matches Ok(x) ==> exists|i: int| #[trigger] variant_named(e, name@, i) && x.0 < final(self).exprs@.len()
                    && match final(self).exprs@[x.0 as int] {
                        Expr::Binary(BinaryOp::Eq, d, k) => d == e.discriminant && k.0 < final(self).exprs@.len()
                            && final(self).exprs@[k.0 as int] == Expr::Const(Const::Int(e.variants@[i].discriminant as i128)),
                        _ => false,
                    })
            },
    {
        let e = match value {
            Symbolic::Enum(e) => e,
            _ => {
                return Err(BuildError::ShapeMismatch);
            },
        };
        match find_variant(e, name) {
            Some(i) => {
                let r = self.discriminator(e, i);
                proof {
                    assert(variant_named(*e, name@, i as int));
                }
                Ok(r)
            },
            None => Err(BuildError::UnknownVariant),
        }
    }


    /// The condition that a scalar value equals literal `val` at type `ty`.
    pub fn equals_const_int(&mut self, value: &Symbolic, val: i128, ty: &Type) -> (r: Result<ExprId, BuildError>)
        requires
            old(self).wf(),
            old(self).exprs@.len() + 2 < usize::MAX,
            *value matches Symbolic::Scalar(x) ==> x.0 < old(self).exprs@.len(),
        ensures
            final(self).wf(),
            final(self).grows_from(old(self)),
            final(self).assumptions == old(self).assumptions,
            final(self).assertions == old(self).assertions,
            final(self).calls == old(self).calls,
            !(*value is Scalar) ==> r == Err::<ExprId, BuildError>(BuildError::ShapeMismatch),
            *value matches Symbolic::Scalar(x) ==> match typed_const(val, *ty) {
                Ok(k) => r matches Ok(eq) && eq.0 < final(self).exprs@.len() && match final(self).exprs@[eq.0 as int] {
                    Expr::Binary(BinaryOp::Eq, a, b) => a == x && b.0 < final(self).exprs@.len() && final(self).exprs@[b.0 as int] == Expr::Const(k),
                    _ => false,
                },
                Err(e) => r == Err::<ExprId, BuildError>(e),
            },
    {
        let x = match value {
            Symbolic::Scalar(x) => *x,
            _ => {
                return Err(BuildError::ShapeMismatch);
            },
        };
        let ghost t0 = self.exprs@;
        let k = self.spec_typed_value(val, ty)?;
        let ghost t1 = self.exprs@;
        proof {
            lemma_interned(t0, Expr::Const(typed_const(val, *ty)->Ok_0));
        }
        let r = self.exprs_equal(x, k);
        proof {
            lemma_interned(t1, Expr::Binary(BinaryOp::Eq, x, k));
        }
        Ok(r)
    }

    /// The condition that not all of `cs` hold.
    pub fn not_all(&mut self, cs: &Vec<ExprId>) -> (r: ExprId)
        requires
            old(self).wf(),
            crate::conditions::ids_below(cs@, old(self).exprs@.len() as int),
            old(self).exprs@.len() + cs@.len() + 2 < usize::MAX,
        ensures
            final(self).wf(),
            final(self).grows_from(old(self)),
            final(self).assumptions == old(self).assumptions,
            final(self).assertions == old(self).assertions,
            final(self).calls == old(self).calls,
            r.0 < final(self).exprs@.len(),
            match final(self).exprs@[r.0 as int] {
                Expr::Unary(UnaryOp::Not, a) => crate::conditions::folds(final(self).exprs@, a, cs@, BinaryOp::And, true),
                _ => false,
            },
    {
        let all = self.all(cs);
        let ghost t = self.exprs@;
        let e = Expr::Unary(UnaryOp::Not, all);
        let r = self.dedup_expr(e);
        proof {
            lemma_interned(t, e);
            crate::conditions::lemma_folds_extends(t, self.exprs@, all, cs@, BinaryOp::And, true);
        }
        r
    }
}

} // verus!
