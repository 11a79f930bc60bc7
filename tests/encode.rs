use isle_veri::conditions::Conditions;
use isle_veri::encode::{
    assign_expr, assumptions_assertion, clz_definition, conv_to_definition, declare_expr, expr_to_smt,
    cls_definition, define_expr, fp_definition, popcnt_definition, is_encodable, rev_definition, type_to_sort,
    verification_condition, Assignment, EncodeError,
};
use isle_veri::expr::{BinaryOp, Expr, ExprId, UnaryOp};
use isle_veri::types::{Const, Type, Width};

fn text(v: Vec<char>) -> String {
    v.into_iter().collect()
}

fn bv(w: usize) -> Type {
    Type::BitVector(Width::Bits(w))
}

#[test]
fn sorts() {
    assert_eq!(text(type_to_sort(&bv(32)).unwrap()), "(_ BitVec 32)");
    assert_eq!(text(type_to_sort(&Type::Int).unwrap()), "Int");
    assert_eq!(text(type_to_sort(&Type::Bool).unwrap()), "Bool");
    assert_eq!(text(type_to_sort(&Type::Unit).unwrap()), "Unit");
    assert_eq!(type_to_sort(&Type::Unknown), Err(EncodeError::NonConcreteType));
    assert_eq!(type_to_sort(&Type::BitVector(Width::Unknown)), Err(EncodeError::NonConcreteType));
}

/// `x: bv8`, `k: bv8`, `8`, `rotl(x, k)`, `zero_ext(8, x)`... over one table.
fn sample() -> (Conditions, Assignment) {
    let mut c = Conditions::new();
    let x = c.alloc_variable(bv(8), "x".to_string());
    let k = c.alloc_variable(bv(8), "k".to_string());
    let w16 = c.constant(Const::Int(16));
    let rot = c.dedup_expr(Expr::Binary(BinaryOp::BVRotl, x, k));
    let ext = c.dedup_expr(Expr::Binary(BinaryOp::BVZeroExt, w16, x));
    let add = c.dedup_expr(Expr::Binary(BinaryOp::BVAdd, x, k));
    let not = c.dedup_expr(Expr::Unary(UnaryOp::BVNot, x));
    let hi = c.dedup_expr(Expr::BVExtract(7, 4, x));
    let eq = c.exprs_equal(rot, add);
    let ite = c.dedup_expr(Expr::Conditional(eq, not, x));
    let w4 = c.constant(Const::Int(4));
    let narrow = c.dedup_expr(Expr::Binary(BinaryOp::BVSignExt, w4, x));
    let width = c.dedup_expr(Expr::Unary(UnaryOp::WidthOf, x));
    let lit = c.constant(Const::BitVector(8, 0xA5));
    c.assumptions.push(eq);
    c.assertions.push(ite);
    let _ = (ext, hi, narrow, width, lit);
    let types = vec![
        bv(8), bv(8), Type::Int, bv(8), bv(16), bv(8), bv(8), bv(4), Type::Bool, bv(8), Type::Int, bv(4), Type::Int, bv(8),
    ];
    let int_values = vec![None, None, Some(16), None, None, None, None, None, None, None, Some(4), None, Some(8), None];
    assert_eq!(types.len(), c.exprs.len());
    (c, Assignment { types, int_values })
}

#[test]
fn expression_terms() {
    let (c, a) = sample();
    let t = |i: usize| expr_to_smt(&c, &a, ExprId(i));
    assert_eq!(t(0), Err(EncodeError::Unsupported));
    assert_eq!(t(2).unwrap(), "16");
    assert_eq!(
        t(3).unwrap(),
        "(bvor (bvshl x_0 (bvurem k_1 #b00001000)) (bvlshr x_0 (bvsub #b00001000 (bvurem k_1 #b00001000))))"
    );
    assert_eq!(t(4).unwrap(), "((_ zero_extend 8) x_0)");
    assert_eq!(t(5).unwrap(), "(bvadd x_0 k_1)");
    assert_eq!(t(6).unwrap(), "(bvnot x_0)");
    assert_eq!(t(7).unwrap(), "((_ extract 7 4) x_0)");
    assert_eq!(t(8).unwrap(), "(= e3 e5)");
    assert_eq!(t(9).unwrap(), "(ite e8 e6 x_0)");
    assert_eq!(t(11), Err(EncodeError::BadWidth));
    assert_eq!(t(12).unwrap(), "8");
    assert_eq!(t(13).unwrap(), "#b10100101");
}

#[test]
fn commands() {
    let (c, a) = sample();
    assert_eq!(declare_expr(&c, &a, ExprId(0)).unwrap(), "(declare-const x_0 (_ BitVec 8))");
    assert_eq!(declare_expr(&c, &a, ExprId(8)).unwrap(), "(declare-const e8 Bool)");
    assert_eq!(assign_expr(&c, &a, ExprId(5)).unwrap(), "(assert (! (= e5 (bvadd x_0 k_1)) :named expr5))");
    assert_eq!(assumptions_assertion(&c), "(assert e8)");
    assert_eq!(verification_condition(&c), "(assert (not (=> e8 e9)))");
}

#[test]
fn conjunctions() {
    let mut c = Conditions::new();
    assert_eq!(verification_condition(&c), "(assert (not (=> true true)))");
    let p = c.alloc_variable(Type::Bool, "p".to_string());
    let q = c.alloc_variable(Type::Bool, "q".to_string());
    let r = c.alloc_variable(Type::Bool, "r".to_string());
    c.assumptions.push(p);
    c.assumptions.push(q);
    c.assumptions.push(r);
    assert_eq!(assumptions_assertion(&c), "(assert (and p_0 q_1 r_2))");
}

#[test]
fn encodable_constants() {
    assert!(is_encodable(&Const::BitVector(8, 255)));
    assert!(!is_encodable(&Const::BitVector(8, 256)));
    assert!(!is_encodable(&Const::BitVector(0, 0)));
    assert!(is_encodable(&Const::BitVector(128, u128::MAX)));
    assert!(!is_encodable(&Const::Unspecified));
    assert!(is_encodable(&Const::Int(-3)));
}

#[test]
fn clz_definition_commands() {
    let mut c = Conditions::new();
    let x = c.alloc_variable(bv(8), "x".to_string());
    let clz = c.dedup_expr(Expr::Unary(UnaryOp::Clz, x));
    let add = c.dedup_expr(Expr::Binary(BinaryOp::BVAdd, x, x));
    let a = Assignment { types: vec![bv(8), bv(8), bv(8)], int_values: vec![None, None, None] };
    let cmds = clz_definition(&c, &a, clz).unwrap();
    assert_eq!(cmds.last().unwrap(), "(assert (= e1 x_0.f0_1))");
    assert!(cmds[0].starts_with("(declare-const x_0.r0_1"));
    assert_eq!(clz_definition(&c, &a, add), Err(EncodeError::Unsupported));
    assert_eq!(expr_to_smt(&c, &a, clz), Err(EncodeError::Unsupported));
    let odd = Assignment { types: vec![bv(6), bv(6), bv(6)], int_values: vec![None, None, None] };
    assert_eq!(clz_definition(&c, &odd, clz), Err(EncodeError::Unsupported));
}

#[test]
fn conversion_commands() {
    let mut c = Conditions::new();
    let y = c.alloc_variable(bv(8), "y".to_string());
    let w16 = c.constant(Const::Int(16));
    let w4 = c.constant(Const::Int(4));
    let w8 = c.constant(Const::Int(8));
    let wide = c.dedup_expr(Expr::Binary(BinaryOp::BVConvTo, w16, y));
    let narrow = c.dedup_expr(Expr::Binary(BinaryOp::BVConvTo, w4, y));
    let same = c.dedup_expr(Expr::Binary(BinaryOp::BVConvTo, w8, y));
    let a = Assignment {
        types: vec![bv(8), Type::Int, Type::Int, Type::Int, bv(16), bv(4), bv(8)],
        int_values: vec![None, Some(16), Some(4), Some(8), None, None, None],
    };
    assert_eq!(
        conv_to_definition(&c, &a, wide).unwrap(),
        vec![
            "(declare-const conv_pad_4 (_ BitVec 8))".to_string(),
            "(assert (! (= e4 (concat conv_pad_4 y_0)) :named expr4))".to_string(),
        ]
    );
    assert_eq!(
        conv_to_definition(&c, &a, narrow),
        Err(EncodeError::Inconclusive)
    );
    assert_eq!(
        conv_to_definition(&c, &a, same).unwrap(),
        vec!["(assert (! (= e6 y_0) :named expr6))".to_string()]
    );
    assert_eq!(conv_to_definition(&c, &a, y), Err(EncodeError::Unsupported));
}

#[test]
fn floating_point_commands() {
    let mut c = Conditions::new();
    let x = c.alloc_variable(bv(32), "x".to_string());
    let y = c.alloc_variable(bv(32), "y".to_string());
    let add = c.dedup_expr(Expr::Binary(BinaryOp::FPAdd, x, y));
    let lt = c.dedup_expr(Expr::Binary(BinaryOp::FPNe, x, y));
    let nan = c.dedup_expr(Expr::Unary(UnaryOp::FPIsNaN, x));
    let ceil = c.dedup_expr(Expr::Unary(UnaryOp::FPCeil, x));
    let w64 = c.constant(Const::Int(64));
    let inf = c.dedup_expr(Expr::Unary(UnaryOp::FPPositiveInfinity, w64));
    let a = Assignment {
        types: vec![bv(32), bv(32), bv(32), Type::Bool, Type::Bool, bv(32), Type::Int, bv(64)],
        int_values: vec![None, None, None, None, None, None, Some(64), None],
    };
    assert_eq!(
        fp_definition(&c, &a, add).unwrap(),
        vec![
            "(declare-const fp_res_2 (_ BitVec 32))".to_string(),
            "(assert (= ((_ to_fp 8 24) fp_res_2) (fp.add roundNearestTiesToEven ((_ to_fp 8 24) x_0) ((_ to_fp 8 24) y_1))))".to_string(),
            "(assert (! (= e2 fp_res_2) :named expr2))".to_string(),
        ]
    );
    assert_eq!(
        fp_definition(&c, &a, lt).unwrap(),
        vec!["(assert (! (= e3 (not (fp.eq ((_ to_fp 8 24) x_0) ((_ to_fp 8 24) y_1)))) :named expr3))".to_string()]
    );
    assert_eq!(
        fp_definition(&c, &a, nan).unwrap(),
        vec!["(assert (! (= e4 (fp.isNaN ((_ to_fp 8 24) x_0))) :named expr4))".to_string()]
    );
    assert_eq!(
        fp_definition(&c, &a, ceil).unwrap()[1],
        "(assert (= ((_ to_fp 8 24) fp_res_5) (fp.roundToIntegral roundTowardPositive ((_ to_fp 8 24) x_0))))"
    );
    assert_eq!(
        fp_definition(&c, &a, inf).unwrap()[1],
        "(assert (= ((_ to_fp 11 53) fp_res_7) (_ +oo 11 53)))"
    );
    let odd = Assignment {
        types: vec![bv(16), bv(16), bv(16), Type::Bool, Type::Bool, bv(16), Type::Int, bv(64)],
        int_values: vec![None, None, None, None, None, None, Some(64), None],
    };
    assert_eq!(fp_definition(&c, &odd, add), Err(EncodeError::BadWidth));
    assert_eq!(fp_definition(&c, &a, x), Err(EncodeError::Unsupported));
}

#[test]
fn floating_point_conversions() {
    let mut c = Conditions::new();
    let x = c.alloc_variable(bv(64), "x".to_string());
    let w32 = c.constant(Const::Int(32));
    let signed = c.dedup_expr(Expr::Binary(BinaryOp::ToFP, w32, x));
    let unsigned = c.dedup_expr(Expr::Binary(BinaryOp::ToFPUnsigned, w32, x));
    let narrow = c.dedup_expr(Expr::Binary(BinaryOp::ToFPFromFP, w32, x));
    let a = Assignment {
        types: vec![bv(64), Type::Int, bv(32), bv(32), bv(32)],
        int_values: vec![None, Some(32), None, None, None],
    };
    assert_eq!(
        fp_definition(&c, &a, signed).unwrap()[1],
        "(assert (= ((_ to_fp 8 24) fp_res_2) ((_ to_fp 8 24) roundNearestTiesToEven x_0)))"
    );
    assert_eq!(
        fp_definition(&c, &a, unsigned).unwrap()[1],
        "(assert (= ((_ to_fp 8 24) fp_res_3) ((_ to_fp_unsigned 8 24) roundNearestTiesToEven x_0)))"
    );
    assert_eq!(
        fp_definition(&c, &a, narrow).unwrap()[1],
        "(assert (= ((_ to_fp 8 24) fp_res_4) ((_ to_fp 8 24) roundNearestTiesToEven ((_ to_fp 11 53) x_0))))"
    );
}

#[test]
fn reversal_commands() {
    let mut c = Conditions::new();
    let x = c.alloc_variable(bv(4), "x".to_string());
    let rev = c.dedup_expr(Expr::Unary(UnaryOp::Rev, x));
    let a = Assignment { types: vec![bv(4), bv(4)], int_values: vec![None, None] };
    assert_eq!(
        rev_definition(&c, &a, rev).unwrap(),
        vec!["(assert (! (= e1 (concat (concat (concat ((_ extract 0 0) x_0) ((_ extract 1 1) x_0)) ((_ extract 2 2) x_0)) ((_ extract 3 3) x_0))) :named expr1))".to_string()]
    );
    assert_eq!(rev_definition(&c, &a, x), Err(EncodeError::Unsupported));
}

#[test]
fn definitions_are_dispatched() {
    let mut c = Conditions::new();
    let x = c.alloc_variable(bv(8), "x".to_string());
    let clz = c.dedup_expr(Expr::Unary(UnaryOp::Clz, x));
    let add = c.dedup_expr(Expr::Binary(BinaryOp::BVAdd, x, x));
    let cls = c.dedup_expr(Expr::Unary(UnaryOp::Cls, x));
    let a = Assignment { types: vec![bv(8); 4], int_values: vec![None; 4] };
    assert_eq!(define_expr(&c, &a, x).unwrap(), Vec::<String>::new());
    assert_eq!(define_expr(&c, &a, clz).unwrap(), clz_definition(&c, &a, clz).unwrap());
    assert_eq!(define_expr(&c, &a, add).unwrap(), vec!["(assert (! (= e2 (bvadd x_0 x_0)) :named expr2))".to_string()]);
    assert_eq!(define_expr(&c, &a, cls).unwrap(), cls_definition(&c, &a, cls).unwrap());
    let pop = c.dedup_expr(Expr::Unary(UnaryOp::Popcnt, x));
    let odd = c.dedup_expr(Expr::Binary(BinaryOp::FPToUBV, x, x));
    let a = Assignment { types: vec![bv(8); 6], int_values: vec![None; 6] };
    assert_eq!(define_expr(&c, &a, pop).unwrap(), popcnt_definition(&c, &a, pop).unwrap());
    assert_eq!(define_expr(&c, &a, odd), Err(EncodeError::Unsupported));
}

#[test]
fn circuit_names_do_not_clash() {
    let mut c = Conditions::new();
    let x = c.alloc_variable(bv(8), "clz_r0".to_string());
    let clz = c.dedup_expr(Expr::Unary(UnaryOp::Clz, x));
    let a = Assignment { types: vec![bv(8); 2], int_values: vec![None; 2] };
    let cmds = clz_definition(&c, &a, clz).unwrap();
    assert!(cmds[0].starts_with("(declare-const clz_r0_0.r0_1"));
}
