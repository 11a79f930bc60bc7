use isle_veri::conditions::Conditions;
use isle_veri::expr::{BinaryOp, Expr, ExprId};
use isle_veri::literal::{LiteralError, const_from_literal, const_to_smt};
use isle_veri::lowering::{Domain, Invocation, TermKind};
use isle_veri::smt::{BvOp, BvTerm, RotationDirection, encode_rotate, render_term};
use isle_veri::solver::{
    Applicability, Model, Response, SolutionError, SolutionStatus, SolutionStep, SolutionTally, Step, Verdict,
    Verification, VerifyError, after_applicability, after_type_inference, after_verification, model_from_values,
    tally_solutions,
};
use isle_veri::spec::{SpecExpr, TermSpec};
use isle_veri::types::{Const, Type};

#[test]
fn constants_round_trip() {
    let cases = vec![
        Const::BitVector(8, 0xFF),
        Const::BitVector(1, 0),
        Const::BitVector(5, 0b10110),
        Const::BitVector(64, u64::MAX as u128),
        Const::BitVector(128, u128::MAX),
        Const::Bool(true),
        Const::Bool(false),
        Const::Int(0),
        Const::Int(42),
        Const::Int(i128::MAX),
    ];
    for c in cases {
        let text = const_to_smt(&c);
        assert_eq!(const_from_literal(&text), Ok(c), "{text}");
    }
}

#[test]
fn constant_text() {
    assert_eq!(const_to_smt(&Const::BitVector(8, 0xFF)), "#b11111111");
    assert_eq!(const_to_smt(&Const::BitVector(4, 1)), "#b0001");
    assert_eq!(const_to_smt(&Const::Bool(false)), "false");
    assert_eq!(const_to_smt(&Const::Int(1234)), "1234");
    assert_eq!(const_to_smt(&Const::Int(-7)), "(- 7)");
    assert_eq!(const_to_smt(&Const::Int(i128::MIN)), "(- 170141183460469231731687303715884105728)");
}

#[test]
fn literals_from_solver() {
    assert_eq!(const_from_literal("#xff"), Ok(Const::BitVector(8, 255)));
    assert_eq!(const_from_literal("#x00A0"), Ok(Const::BitVector(16, 160)));
    assert_eq!(const_from_literal("#b101"), Ok(Const::BitVector(3, 5)));
    assert_eq!(const_from_literal("17"), Ok(Const::Int(17)));
    assert_eq!(const_from_literal("true"), Ok(Const::Bool(true)));
    assert_eq!(const_from_literal("#b"), Err(LiteralError::InvalidNumber));
    assert_eq!(const_from_literal("#b102"), Err(LiteralError::InvalidNumber));
    assert_eq!(const_from_literal("#xfg"), Err(LiteralError::InvalidNumber));
    assert_eq!(
        const_from_literal("#x1ffffffffffffffffffffffffffffffff"),
        Err(LiteralError::InvalidNumber)
    );
    assert_eq!(
        const_from_literal("170141183460469231731687303715884105728"),
        Err(LiteralError::InvalidNumber)
    );
    assert_eq!(const_from_literal("12a"), Err(LiteralError::InvalidNumber));
    assert_eq!(const_from_literal("@uc_Unspecified_0"), Err(LiteralError::Unsupported));
    assert_eq!(const_from_literal("truth"), Err(LiteralError::Unsupported));
    assert_eq!(const_from_literal(""), Err(LiteralError::Unsupported));
}

fn eval(t: &BvTerm, x: u128, k: u128, w: u32) -> u128 {
    let mask = if w == 128 { u128::MAX } else { (1u128 << w) - 1 };
    match t {
        BvTerm::Var(n) if n == "x" => x & mask,
        BvTerm::Var(_) => k & mask,
        BvTerm::Lit(_, v) => v & mask,
        BvTerm::Binary(op, a, b) => {
            let a = eval(a, x, k, w);
            let b = eval(b, x, k, w);
            match op {
                BvOp::Add => a.wrapping_add(b) & mask,
                BvOp::Urem => if b == 0 { a } else { a % b },
                BvOp::Sub => a.wrapping_sub(b) & mask,
                BvOp::Shl => if b >= w as u128 { 0 } else { (a << b) & mask },
                BvOp::Lshr => if b >= w as u128 { 0 } else { a >> b },
                BvOp::Or => a | b,
            }
        }
    }
}

#[test]
fn rotate_agrees_with_shift_and_or() {
    for w in [8u32, 5] {
        let left = encode_rotate(RotationDirection::Left, BvTerm::Var("x".to_string()), BvTerm::Var("k".to_string()), w as usize);
        let right = encode_rotate(RotationDirection::Right, BvTerm::Var("x".to_string()), BvTerm::Var("k".to_string()), w as usize);
        let mask = (1u128 << w) - 1;
        for x in 0..(1u128 << w) {
            for k in 0..(1u128 << w) {
                let r = k % w as u128;
                let expect_left = if r == 0 { x } else { ((x << r) | (x >> (w as u128 - r))) & mask };
                let expect_right = if r == 0 { x } else { ((x >> r) | (x << (w as u128 - r))) & mask };
                assert_eq!(eval(&left, x, k, w), expect_left, "rotl {x} {k} {w}");
                assert_eq!(eval(&right, x, k, w), expect_right, "rotr {x} {k} {w}");
            }
        }
    }
}

#[test]
fn rotate_text() {
    let t = encode_rotate(RotationDirection::Left, BvTerm::Var("x".to_string()), BvTerm::Var("k".to_string()), 4);
    let mut out = Vec::new();
    render_term(&t, &mut out);
    let text: String = out.into_iter().collect();
    assert_eq!(
        text,
        "(bvor (bvshl x (bvurem k #b0100)) (bvlshr x (bvsub #b0100 (bvurem k #b0100))))"
    );
}

#[test]
fn verdict_steps() {
    assert_eq!(Applicability::from_response(Response::Sat), Applicability::Applicable);
    assert_eq!(Applicability::from_response(Response::Unsat), Applicability::Inapplicable);
    assert_eq!(Applicability::from_response(Response::Unknown), Applicability::Unknown);
    assert_eq!(after_applicability(Applicability::Applicable), Step::Verify);
    assert_eq!(after_applicability(Applicability::Inapplicable), Step::Finish(Verdict::Inapplicable));
    assert_eq!(after_applicability(Applicability::Unknown), Step::Fail(VerifyError::ApplicabilityUnknown));
    let empty = Model { values: Vec::new() };
    assert_eq!(after_verification(&Verification::from_response(Response::Unsat, empty)), Step::Finish(Verdict::Success));
    let empty = Model { values: Vec::new() };
    assert_eq!(after_verification(&Verification::from_response(Response::Unknown, empty)), Step::Finish(Verdict::Unknown));
}

#[test]
fn violated_requires_fails_with_model() {
    // A rule whose result is the constant 0 feeds a term that requires x > 0.
    let mut c = Conditions::new();
    let x = c.alloc_variable(Type::Int, "x".to_string());
    let result = c.alloc_variable(Type::Int, "result".to_string());
    let zero = c.constant(Const::Int(0));
    let bind = c.exprs_equal(x, zero);
    c.assumptions.push(bind);
    let spec = TermSpec {
        args: vec!["x".to_string()],
        ret: "result".to_string(),
        requires: vec![SpecExpr::Binary(
            BinaryOp::Lt,
            Box::new(SpecExpr::Const(Const::Int(0))),
            Box::new(SpecExpr::Var("x".to_string())),
        )],
        matches: Vec::new(),
        provides: Vec::new(),
        modifies: Vec::new(),
    };
    c.call(0, &spec, TermKind::Constructor, &vec![x], result, Invocation::Caller, Domain::Total, &Vec::new())
        .unwrap();
    assert!(c.validate().is_ok());

    // The solver answers sat, with a value for each expression.
    let values: Vec<String> = vec!["0", "5", "0", "true", "false"].into_iter().map(String::from).collect();
    assert_eq!(values.len(), c.exprs.len());
    let model = model_from_values(&values).unwrap();
    let v = Verification::from_response(Response::Sat, model);
    assert_eq!(after_verification(&v), Step::Fail(VerifyError::VerificationFailed));
    let Verification::Failure(model) = v else { panic!("expected a failure") };
    assert_eq!(model.values[x.index()], (ExprId(0), Const::Int(0)));
    assert_eq!(model.values[result.index()], (ExprId(1), Const::Int(5)));
    let asserted = c.assertions[0];
    let Expr::Binary(BinaryOp::Lt, _, x1) = c.exprs[asserted.index()].clone() else { panic!() };
    assert_eq!(x1, x);
    assert_eq!(model.values[asserted.index()].1, Const::Bool(false));
}

#[test]
fn model_with_bad_value_is_rejected() {
    let values: Vec<String> = vec!["#b1", "(as @a Unit)"].into_iter().map(String::from).collect();
    assert!(matches!(model_from_values(&values), Err(LiteralError::Unsupported)));
}

#[test]
fn unspecified_values_are_read() {
    assert_eq!(const_from_literal("(as @uc_Unspecified_0 Unspecified)"), Ok(Const::Unspecified));
    assert_eq!(const_from_literal("(as uc Unspecified)"), Err(LiteralError::Unsupported));
    assert_eq!(const_from_literal("(as @a b Unspecified)"), Err(LiteralError::Unsupported));
    let values: Vec<String> = vec!["#b1", "(as @a Unspecified)"].into_iter().map(String::from).collect();
    let m = model_from_values(&values).unwrap();
    assert_eq!(m.values[1], (ExprId(1), Const::Unspecified));
}

#[test]
fn type_instantiations_are_tallied() {
    use_tally();
}

fn use_tally() {
    assert_eq!(after_type_inference(SolutionStatus::Solved), SolutionStep::Verify);
    assert_eq!(after_type_inference(SolutionStatus::Inapplicable), SolutionStep::Skip);
    assert_eq!(
        after_type_inference(SolutionStatus::Underconstrained),
        SolutionStep::Fail(SolutionError::Underconstrained)
    );
    let ss = vec![SolutionStatus::Solved, SolutionStatus::Inapplicable, SolutionStatus::Solved];
    assert_eq!(tally_solutions(&ss), Ok(SolutionTally { solved: 2, inapplicable: 1 }));
    let bad = vec![SolutionStatus::Solved, SolutionStatus::TypeError, SolutionStatus::Underconstrained];
    assert_eq!(tally_solutions(&bad), Err((1, SolutionError::TypeError)));
    assert_eq!(tally_solutions(&Vec::new()), Ok(SolutionTally { solved: 0, inapplicable: 0 }));
}

#[test]
fn hex_echo_is_read() {
    assert_eq!(const_from_literal("#x00ff"), Ok(Const::BitVector(16, 255)));
    assert_eq!(const_from_literal("#xFF"), Ok(Const::BitVector(8, 255)));
}
