use isle_veri::conditions::{BuildError, Conditions, Variable};
use isle_veri::expr::{BinaryOp, Expr, ExprId, UnaryOp, VariableId};
use isle_veri::lowering::{conds_for, Domain, Invocation, TermKind};
use isle_veri::spec::{Modifies, SpecExpr, TermSpec};
use isle_veri::symbolic::{Symbolic, SymbolicVariant};
use isle_veri::types::{Const, Type};

fn int_var(c: &mut Conditions, name: &str) -> ExprId {
    c.alloc_variable(Type::Int, name.to_string())
}

fn var(name: &str) -> Box<SpecExpr> {
    Box::new(SpecExpr::Var(name.to_string()))
}

fn int_lit(v: i128) -> Box<SpecExpr> {
    Box::new(SpecExpr::Const(Const::Int(v)))
}

fn unit_variant(name: &str, discriminant: usize) -> SymbolicVariant {
    SymbolicVariant {
        name: name.to_string(),
        id: discriminant,
        discriminant,
        value: Symbolic::Struct(Vec::new()),
    }
}

#[test]
fn pure_expressions_are_shared() {
    let mut c = Conditions::new();
    let x = int_var(&mut c, "x");
    let y = int_var(&mut c, "y");
    let a = c.dedup_expr(Expr::Binary(BinaryOp::Add, x, y));
    let b = c.dedup_expr(Expr::Binary(BinaryOp::Add, x, y));
    assert_eq!(a, b);
    assert_eq!(c.exprs.len(), 3);
    let d = c.dedup_expr(Expr::Binary(BinaryOp::Add, y, x));
    assert_ne!(a, d);
}

#[test]
fn impure_expressions_are_not_shared() {
    let mut c = Conditions::new();
    let w = c.constant(Const::Int(64));
    let x = c.alloc_variable(Type::Unknown, "x".to_string());
    let a = c.dedup_expr(Expr::Binary(BinaryOp::BVConvTo, w, x));
    let b = c.dedup_expr(Expr::Binary(BinaryOp::BVConvTo, w, x));
    assert_ne!(a, b);
    assert_eq!(c.exprs.len(), 4);
}

#[test]
fn variables_are_distinct() {
    let mut c = Conditions::new();
    let a = int_var(&mut c, "a");
    let b = int_var(&mut c, "a");
    assert_ne!(a, b);
    assert_eq!(c.exprs[b.index()], Expr::Variable(VariableId(1)));
    assert_eq!(c.variables[1].name, "a");
}

#[test]
fn component_names_join_with_underscore() {
    assert_eq!(Variable::component_name("x", "some"), "x_some");
    assert_eq!(Variable::component_name("", "inner"), "_inner");
}

#[test]
fn all_and_any_fold_from_the_left() {
    let mut c = Conditions::new();
    let p = c.alloc_variable(Type::Bool, "p".to_string());
    let q = c.alloc_variable(Type::Bool, "q".to_string());
    let r = c.alloc_variable(Type::Bool, "r".to_string());
    let all = c.all(&vec![p, q, r]);
    let pq = c.dedup_expr(Expr::Binary(BinaryOp::And, p, q));
    assert_eq!(c.exprs[all.index()], Expr::Binary(BinaryOp::And, pq, r));
    let empty_all = c.all(&Vec::new());
    assert_eq!(c.exprs[empty_all.index()], Expr::Const(Const::Bool(true)));
    let empty_any = c.any(&Vec::new());
    assert_eq!(c.exprs[empty_any.index()], Expr::Const(Const::Bool(false)));
    let single = c.any(&vec![q]);
    assert_eq!(single, q);
}

#[test]
fn enum_discriminant_is_assumed_in_range() {
    let mut c = Conditions::new();
    let d = int_var(&mut c, "v_discriminant");
    let variants = vec![unit_variant("A", 0), unit_variant("B", 1), unit_variant("C", 2)];
    let e = c.new_enum(7, d, variants).unwrap();
    match e {
        Symbolic::Enum(e) => {
            assert_eq!(e.discriminant, d);
            assert_eq!(e.variants.len(), 3);
            assert_eq!(e.ty, 7);
        }
        _ => panic!("expected an enum"),
    }
    assert_eq!(c.assumptions.len(), 1);
    let a = c.assumptions[0];
    let Expr::Binary(BinaryOp::And, lower, upper) = c.exprs[a.index()].clone() else {
        panic!("expected a conjunction");
    };
    let Expr::Binary(BinaryOp::Lte, zero, d1) = c.exprs[lower.index()].clone() else {
        panic!("expected a lower bound");
    };
    let Expr::Binary(BinaryOp::Lt, d2, n) = c.exprs[upper.index()].clone() else {
        panic!("expected an upper bound");
    };
    assert_eq!(d1, d);
    assert_eq!(d2, d);
    assert_eq!(c.exprs[zero.index()], Expr::Const(Const::Int(0)));
    assert_eq!(c.exprs[n.index()], Expr::Const(Const::Int(3)));
}

#[test]
fn enum_with_misnumbered_variants_is_rejected() {
    let mut c = Conditions::new();
    let d = int_var(&mut c, "d");
    let variants = vec![unit_variant("A", 0), unit_variant("B", 2)];
    let before = c.exprs.len();
    assert!(matches!(c.new_enum(0, d, variants), Err(BuildError::UnexpectedDiscriminant)));
    assert!(c.assumptions.is_empty());
    assert_eq!(c.exprs.len(), before);
}

fn decrement_spec() -> TermSpec {
    TermSpec {
        args: vec!["x".to_string()],
        ret: "result".to_string(),
        requires: vec![SpecExpr::Binary(BinaryOp::Lt, int_lit(0), var("x"))],
        matches: Vec::new(),
        provides: vec![SpecExpr::Binary(
            BinaryOp::Eq,
            var("result"),
            Box::new(SpecExpr::Binary(BinaryOp::Sub, var("x"), int_lit(1))),
        )],
        modifies: Vec::new(),
    }
}

#[test]
fn caller_asserts_requires_and_assumes_provides() {
    let mut c = Conditions::new();
    let x = int_var(&mut c, "x");
    let result = int_var(&mut c, "result");
    let spec = decrement_spec();
    c.call(0, &spec, TermKind::Constructor, &vec![x], result, Invocation::Caller, Domain::Total, &Vec::new())
        .unwrap();
    assert_eq!(c.assertions.len(), 1);
    assert_eq!(c.assumptions.len(), 1);
    let Expr::Binary(BinaryOp::Lt, zero, x1) = c.exprs[c.assertions[0].index()].clone() else {
        panic!("expected x > 0");
    };
    assert_eq!(x1, x);
    assert_eq!(c.exprs[zero.index()], Expr::Const(Const::Int(0)));
    let Expr::Binary(BinaryOp::Eq, r1, dec) = c.exprs[c.assumptions[0].index()].clone() else {
        panic!("expected result == x - 1");
    };
    assert_eq!(r1, result);
    let Expr::Binary(BinaryOp::Sub, x2, one) = c.exprs[dec.index()].clone() else {
        panic!("expected x - 1");
    };
    assert_eq!(x2, x);
    assert_eq!(c.exprs[one.index()], Expr::Const(Const::Int(1)));
    assert!(c.validate().is_ok());
}

#[test]
fn callee_assumes_requires_and_asserts_provides() {
    let mut c = Conditions::new();
    let x = int_var(&mut c, "x");
    let result = int_var(&mut c, "result");
    let spec = decrement_spec();
    c.call(0, &spec, TermKind::Constructor, &vec![x], result, Invocation::Callee, Domain::Total, &Vec::new())
        .unwrap();
    assert_eq!(c.assumptions.len(), 1);
    assert_eq!(c.assertions.len(), 1);
    assert!(matches!(c.exprs[c.assumptions[0].index()], Expr::Binary(BinaryOp::Lt, _, _)));
    assert!(matches!(c.exprs[c.assertions[0].index()], Expr::Binary(BinaryOp::Eq, _, _)));
}

#[test]
fn extractor_binds_result_as_input() {
    let mut c = Conditions::new();
    let x = int_var(&mut c, "x");
    let result = int_var(&mut c, "result");
    let spec = TermSpec {
        args: vec!["x".to_string()],
        ret: "result".to_string(),
        requires: vec![SpecExpr::Binary(BinaryOp::Lt, int_lit(0), var("result"))],
        matches: Vec::new(),
        provides: Vec::new(),
        modifies: Vec::new(),
    };
    c.call(0, &spec, TermKind::Extractor, &vec![x], result, Invocation::Caller, Domain::Total, &Vec::new())
        .unwrap();
    let Expr::Binary(BinaryOp::Lt, _, r1) = c.exprs[c.assertions[0].index()].clone() else {
        panic!("expected 0 < result");
    };
    assert_eq!(r1, result);

    // Outputs are not in scope of requires.
    let mut c = Conditions::new();
    let x = int_var(&mut c, "x");
    let result = int_var(&mut c, "result");
    let spec = TermSpec {
        args: vec!["x".to_string()],
        ret: "result".to_string(),
        requires: vec![SpecExpr::Binary(BinaryOp::Lt, int_lit(0), var("x"))],
        matches: Vec::new(),
        provides: Vec::new(),
        modifies: Vec::new(),
    };
    assert_eq!(
        c.call(0, &spec, TermKind::Extractor, &vec![x], result, Invocation::Caller, Domain::Total, &Vec::new()),
        Err(BuildError::UndefinedVariable)
    );
}

#[test]
fn partial_call_assumes_domain() {
    let mut c = Conditions::new();
    let x = int_var(&mut c, "x");
    let some = c.alloc_variable(Type::Bool, "r_some".to_string());
    let inner = int_var(&mut c, "r_inner");
    let spec = TermSpec {
        args: vec!["x".to_string()],
        ret: "r".to_string(),
        requires: Vec::new(),
        matches: vec![
            SpecExpr::Binary(BinaryOp::Eq, var("x"), int_lit(1)),
            SpecExpr::Binary(BinaryOp::Eq, var("x"), int_lit(2)),
        ],
        provides: vec![SpecExpr::Binary(BinaryOp::Eq, var("r"), var("x"))],
        modifies: Vec::new(),
    };
    c.call(0, &spec, TermKind::Constructor, &vec![x], inner, Invocation::Caller, Domain::Partial(some), &Vec::new())
        .unwrap();
    assert_eq!(c.assumptions.len(), 2);
    assert!(c.assertions.is_empty());
    let Expr::Binary(BinaryOp::Eq, s, any) = c.exprs[c.assumptions[0].index()].clone() else {
        panic!("expected some == any(matches)");
    };
    assert_eq!(s, some);
    assert!(matches!(c.exprs[any.index()], Expr::Binary(BinaryOp::Or, _, _)));
    let Expr::Binary(BinaryOp::Imp, guard, _) = c.exprs[c.assumptions[1].index()].clone() else {
        panic!("expected guarded provides");
    };
    assert_eq!(guard, any);
    assert!(c.validate().is_ok());
}

#[test]
fn call_errors() {
    let mut c = Conditions::new();
    let x = int_var(&mut c, "x");
    let y = int_var(&mut c, "y");
    let spec = decrement_spec();
    assert_eq!(
        c.call(0, &spec, TermKind::Constructor, &vec![x, y], y, Invocation::Caller, Domain::Total, &Vec::new()),
        Err(BuildError::IncorrectArgumentCount)
    );
    let partial = TermSpec {
        args: vec!["x".to_string()],
        ret: "r".to_string(),
        requires: Vec::new(),
        matches: vec![SpecExpr::Const(Const::Bool(true))],
        provides: Vec::new(),
        modifies: Vec::new(),
    };
    assert_eq!(
        c.call(0, &partial, TermKind::Constructor, &vec![x], y, Invocation::Caller, Domain::Total, &Vec::new()),
        Err(BuildError::MatchesOnTotalFunction)
    );
    let unbound = TermSpec {
        args: vec!["x".to_string()],
        ret: "r".to_string(),
        requires: vec![SpecExpr::Unary(UnaryOp::Not, var("z"))],
        matches: Vec::new(),
        provides: Vec::new(),
        modifies: Vec::new(),
    };
    assert_eq!(
        c.call(0, &unbound, TermKind::Constructor, &vec![x], y, Invocation::Caller, Domain::Total, &Vec::new()),
        Err(BuildError::UndefinedVariable)
    );
    assert!(c.assertions.is_empty() && c.assumptions.is_empty());
}

#[test]
fn validate_reports_dangling_expression() {
    let mut c = Conditions::new();
    let x = int_var(&mut c, "x");
    let one = c.constant(Const::Int(1));
    let sum = c.dedup_expr(Expr::Binary(BinaryOp::Add, x, one));
    let zero = c.constant(Const::Int(0));
    let cmp = c.dedup_expr(Expr::Binary(BinaryOp::Lt, zero, x));
    c.assumptions.push(cmp);
    assert_eq!(c.validate(), Err(one));
    let eq = c.exprs_equal(sum, x);
    c.assertions.push(eq);
    assert!(c.validate().is_ok());
}

#[test]
fn state_default_is_guarded_by_modifications() {
    let mut c = Conditions::new();
    let flag = c.alloc_variable(Type::Bool, "flag".to_string());
    let default = SpecExpr::Unary(UnaryOp::Not, var("flag"));
    c.state_default(&"flag".to_string(), flag, &default, &Vec::new()).unwrap();
    assert_eq!(c.assumptions.len(), 1);
    assert_eq!(c.exprs[c.assumptions[0].index()], Expr::Unary(UnaryOp::Not, flag));

    let m1 = c.alloc_variable(Type::Bool, "flag_modification_cond".to_string());
    let m2 = c.alloc_variable(Type::Bool, "flag_modification_cond".to_string());
    c.state_default(&"flag".to_string(), flag, &default, &vec![m1, m2]).unwrap();
    let Expr::Binary(BinaryOp::Imp, nm, d) = c.exprs[c.assumptions[1].index()].clone() else {
        panic!("expected a guarded default");
    };
    assert_eq!(c.exprs[d.index()], Expr::Unary(UnaryOp::Not, flag));
    let Expr::Unary(UnaryOp::Not, any) = c.exprs[nm.index()].clone() else {
        panic!("expected a negated disjunction");
    };
    assert_eq!(c.exprs[any.index()], Expr::Binary(BinaryOp::Or, m1, m2));

    assert_eq!(
        c.state_default(&"flag".to_string(), flag, &SpecExpr::Unary(UnaryOp::Not, var("other")), &Vec::new()),
        Err(BuildError::UndefinedVariable)
    );
}

#[test]
fn calls_are_recorded() {
    let mut c = Conditions::new();
    let x = int_var(&mut c, "x");
    let result = int_var(&mut c, "result");
    let spec = decrement_spec();
    c.call(3, &spec, TermKind::Constructor, &vec![x], result, Invocation::Caller, Domain::Total, &Vec::new())
        .unwrap();
    assert_eq!(c.calls.len(), 1);
    assert_eq!(c.calls[0].term, 3);
    assert_eq!(c.calls[0].args, vec![x]);
    assert_eq!(c.calls[0].ret, result);
    assert!(c.call(4, &spec, TermKind::Constructor, &Vec::new(), result, Invocation::Caller, Domain::Total, &Vec::new()).is_err());
    assert_eq!(c.calls.len(), 1);
}

#[test]
fn greater_than_swaps_operands() {
    let mut c = Conditions::new();
    let x = int_var(&mut c, "x");
    let spec = TermSpec {
        args: vec!["x".to_string()],
        ret: "r".to_string(),
        requires: vec![SpecExpr::Gt(var("x"), int_lit(0)), SpecExpr::Gte(var("x"), int_lit(1))],
        matches: Vec::new(),
        provides: Vec::new(),
        modifies: Vec::new(),
    };
    c.call(0, &spec, TermKind::Constructor, &vec![x], x, Invocation::Caller, Domain::Total, &Vec::new()).unwrap();
    let Expr::Binary(BinaryOp::Lt, zero, x1) = c.exprs[c.assertions[0].index()].clone() else { panic!() };
    assert_eq!(x1, x);
    assert_eq!(c.exprs[zero.index()], Expr::Const(Const::Int(0)));
    let Expr::Binary(BinaryOp::Lte, one, x2) = c.exprs[c.assertions[1].index()].clone() else { panic!() };
    assert_eq!(x2, x);
    assert_eq!(c.exprs[one.index()], Expr::Const(Const::Int(1)));
}

#[test]
fn variadic_operators_fold() {
    let mut c = Conditions::new();
    let p = c.alloc_variable(Type::Bool, "p".to_string());
    let q = c.alloc_variable(Type::Bool, "q".to_string());
    let r = c.alloc_variable(Type::Bool, "r".to_string());
    let spec = TermSpec {
        args: vec!["p".to_string(), "q".to_string(), "r".to_string()],
        ret: "out".to_string(),
        requires: vec![SpecExpr::Variadic(BinaryOp::Or, vec![*var("p"), *var("q"), *var("r")])],
        matches: Vec::new(),
        provides: Vec::new(),
        modifies: Vec::new(),
    };
    c.call(0, &spec, TermKind::Constructor, &vec![p, q, r], p, Invocation::Caller, Domain::Total, &Vec::new()).unwrap();
    let Expr::Binary(BinaryOp::Or, pq, r1) = c.exprs[c.assertions[0].index()].clone() else { panic!() };
    assert_eq!(r1, r);
    assert_eq!(c.exprs[pq.index()], Expr::Binary(BinaryOp::Or, p, q));
    let empty = TermSpec {
        args: vec!["p".to_string()],
        ret: "out".to_string(),
        requires: vec![SpecExpr::Variadic(BinaryOp::And, Vec::new())],
        matches: Vec::new(),
        provides: Vec::new(),
        modifies: Vec::new(),
    };
    assert_eq!(
        c.call(0, &empty, TermKind::Constructor, &vec![p], p, Invocation::Caller, Domain::Total, &Vec::new()),
        Err(BuildError::EmptyVariadic)
    );
}

#[test]
fn well_formedness_is_checked() {
    let mut c = Conditions::new();
    let x = int_var(&mut c, "x");
    let one = c.constant(Const::Int(1));
    c.dedup_expr(Expr::Binary(BinaryOp::Add, x, one));
    assert!(c.check_wf());
    c.exprs.push(Expr::Binary(BinaryOp::Add, x, ExprId(9)));
    assert!(!c.check_wf());
    c.exprs.pop();
    c.exprs.push(Expr::Const(Const::Int(1)));
    assert!(!c.check_wf());
    c.exprs.pop();
    c.assumptions.push(ExprId(7));
    assert!(!c.check_wf());
}

#[test]
fn non_scalar_operand_is_rejected() {
    let mut c = Conditions::new();
    let x = int_var(&mut c, "x");
    let scope = vec![
        ("s".to_string(), Symbolic::Struct(Vec::new())),
        ("x".to_string(), Symbolic::Scalar(x)),
    ];
    let e = SpecExpr::Binary(BinaryOp::Add, var("x"), var("s"));
    assert_eq!(c.spec_expr(&e, &scope), Err(BuildError::ShapeMismatch));
    let ok = SpecExpr::Binary(BinaryOp::Add, var("x"), var("x"));
    let id = c.spec_expr(&ok, &scope).unwrap();
    assert_eq!(c.exprs[id.index()], Expr::Binary(BinaryOp::Add, x, x));
    assert_eq!(c.spec_expr(&SpecExpr::Var("y".to_string()), &scope), Err(BuildError::UndefinedVariable));
}

#[test]
fn first_error_is_reported() {
    let mut c = Conditions::new();
    let x = int_var(&mut c, "x");
    let scope = vec![("x".to_string(), Symbolic::Scalar(x)), ("s".to_string(), Symbolic::Tuple(Vec::new()))];
    let empty = || Box::new(SpecExpr::Variadic(BinaryOp::And, Vec::new()));
    let e = SpecExpr::Binary(BinaryOp::Add, var("nope"), empty());
    assert_eq!(c.spec_expr(&e, &scope), Err(BuildError::UndefinedVariable));
    let e = SpecExpr::Binary(BinaryOp::Add, empty(), var("nope"));
    assert_eq!(c.spec_expr(&e, &scope), Err(BuildError::EmptyVariadic));
    let e = SpecExpr::Gt(var("nope"), var("s"));
    assert_eq!(c.spec_expr(&e, &scope), Err(BuildError::ShapeMismatch));
    let es = vec![SpecExpr::Var("x".to_string()), SpecExpr::Var("s".to_string()), SpecExpr::Var("nope".to_string())];
    assert_eq!(c.spec_exprs(&es, &scope), Err(BuildError::ShapeMismatch));
}

#[test]
fn modification_conditions_are_bound() {
    let mut c = Conditions::new();
    let flag = c.alloc_variable(Type::Bool, "flag".to_string());
    let x = int_var(&mut c, "x");
    let spec = TermSpec {
        args: vec!["x".to_string()],
        ret: "r".to_string(),
        requires: Vec::new(),
        matches: Vec::new(),
        provides: vec![SpecExpr::Binary(BinaryOp::Imp, var("cond"), Box::new(SpecExpr::Gt(var("x"), int_lit(0))))],
        modifies: vec![
            Modifies { state: "flag".to_string(), cond: Some("cond".to_string()) },
            Modifies { state: "other".to_string(), cond: None },
        ],
    };
    let (scope, mods) = c.modification_conditions(&spec);
    assert_eq!(scope.len(), 1);
    assert_eq!(mods.len(), 2);
    let Symbolic::Scalar(cond) = scope[0].1 else { panic!() };
    assert_eq!(mods[0], ("flag".to_string(), cond));
    assert!(matches!(c.exprs[cond.index()], Expr::Variable(_)));
    assert_eq!(c.exprs[mods[1].1.index()], Expr::Const(Const::Bool(true)));
    c.call(0, &spec, TermKind::Constructor, &vec![x], x, Invocation::Caller, Domain::Total, &scope).unwrap();
    let Expr::Binary(BinaryOp::Imp, cond1, _) = c.exprs[c.assumptions[0].index()].clone() else { panic!() };
    assert_eq!(cond1, cond);
    let conds = conds_for(&mods, &"flag".to_string());
    assert_eq!(conds, vec![cond]);
    c.state_default(&"flag".to_string(), flag, &SpecExpr::Unary(UnaryOp::Not, var("flag")), &conds).unwrap();
    let Expr::Binary(BinaryOp::Imp, nm, _) = c.exprs[c.assumptions[1].index()].clone() else { panic!() };
    assert_eq!(c.exprs[nm.index()], Expr::Unary(UnaryOp::Not, cond));
}
