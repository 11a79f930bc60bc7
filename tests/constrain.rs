use isle_veri::conditions::{BuildError, Conditions};
use isle_veri::expr::{BinaryOp, Expr, UnaryOp};
use isle_veri::symbolic::{Symbolic, SymbolicOption, SymbolicVariant};
use isle_veri::types::{Const, Type, Width};

fn variant(name: &str, discriminant: usize) -> SymbolicVariant {
    SymbolicVariant {
        name: name.to_string(),
        id: discriminant,
        discriminant,
        value: Symbolic::Struct(Vec::new()),
    }
}

#[test]
fn typed_literals() {
    let mut c = Conditions::new();
    let t = c.spec_typed_value(1, &Type::Bool).unwrap();
    assert_eq!(c.exprs[t.index()], Expr::Const(Const::Bool(true)));
    let b = c.spec_typed_value(5, &Type::BitVector(Width::Bits(8))).unwrap();
    assert_eq!(c.exprs[b.index()], Expr::Const(Const::BitVector(8, 5)));
    let i = c.spec_typed_value(-5, &Type::Int).unwrap();
    assert_eq!(c.exprs[i.index()], Expr::Const(Const::Int(-5)));
    assert_eq!(c.spec_typed_value(2, &Type::Bool), Err(BuildError::BadConstant));
    assert_eq!(c.spec_typed_value(-1, &Type::BitVector(Width::Bits(8))), Err(BuildError::BadConstant));
    assert_eq!(c.spec_typed_value(0, &Type::Unknown), Err(BuildError::BadConstant));
}

#[test]
fn variant_and_presence_constraints() {
    let mut c = Conditions::new();
    let d = c.alloc_variable(Type::Int, "v_discriminant".to_string());
    let e = c.new_enum(0, d, vec![variant("Iadd", 0), variant("Iconst", 1)]).unwrap();
    let is_iconst = c.constraint_variant(&e, &"Iconst".to_string()).unwrap();
    let Expr::Binary(BinaryOp::Eq, d1, k) = c.exprs[is_iconst.index()].clone() else {
        panic!("expected a discriminator");
    };
    assert_eq!(d1, d);
    assert_eq!(c.exprs[k.index()], Expr::Const(Const::Int(1)));
    assert_eq!(c.constraint_variant(&e, &"Isub".to_string()), Err(BuildError::UnknownVariant));
    assert_eq!(c.constraint_variant(&Symbolic::Scalar(d), &"Iadd".to_string()), Err(BuildError::ShapeMismatch));

    let some = c.alloc_variable(Type::Bool, "o_some".to_string());
    let inner = c.alloc_variable(Type::Int, "o_inner".to_string());
    let opt = Symbolic::Option(SymbolicOption { some, inner: Box::new(Symbolic::Scalar(inner)) });
    assert_eq!(c.constraint_some(&opt), Ok(some));
    assert_eq!(c.constraint_some(&Symbolic::Scalar(inner)), Err(BuildError::ShapeMismatch));
}

#[test]
fn literal_and_negated_constraints() {
    let mut c = Conditions::new();
    let x = c.alloc_variable(Type::BitVector(Width::Bits(8)), "x".to_string());
    let eq = c.equals_const_int(&Symbolic::Scalar(x), 0, &Type::BitVector(Width::Bits(8))).unwrap();
    let Expr::Binary(BinaryOp::Eq, x1, k) = c.exprs[eq.index()].clone() else {
        panic!("expected an equality");
    };
    assert_eq!(x1, x);
    assert_eq!(c.exprs[k.index()], Expr::Const(Const::BitVector(8, 0)));
    let y = c.alloc_variable(Type::Bool, "y".to_string());
    let n = c.not_all(&vec![eq, y]);
    let Expr::Unary(UnaryOp::Not, all) = c.exprs[n.index()].clone() else {
        panic!("expected a negation");
    };
    assert_eq!(c.exprs[all.index()], Expr::Binary(BinaryOp::And, eq, y));
    assert_eq!(
        c.equals_const_int(&Symbolic::Tuple(Vec::new()), 0, &Type::Int),
        Err(BuildError::ShapeMismatch)
    );
}
