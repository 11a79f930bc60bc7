use isle_veri::select::{
    eval_predicate, select_solver_backend, should_verify, solver_tag_rules, ExpansionFacts,
    ExpansionPredicate, Filter, SolverBackend, SolverRule,
};

fn facts() -> ExpansionFacts {
    ExpansionFacts {
        first_rule_named: true,
        specified: false,
        tags: vec!["solver_cvc5".to_string(), "slow".to_string()],
        root: "lower".to_string(),
        rules: vec!["iadd_base_case".to_string()],
    }
}

#[test]
fn predicates() {
    let f = facts();
    assert!(eval_predicate(&ExpansionPredicate::FirstRuleNamed, &f));
    assert!(!eval_predicate(&ExpansionPredicate::Specified, &f));
    assert!(eval_predicate(&ExpansionPredicate::Tagged("slow".to_string()), &f));
    assert!(!eval_predicate(&ExpansionPredicate::Tagged("fast".to_string()), &f));
    assert!(eval_predicate(&ExpansionPredicate::Root("lower".to_string()), &f));
    assert!(eval_predicate(&ExpansionPredicate::ContainsRule("iadd_base_case".to_string()), &f));
    let p = ExpansionPredicate::And(
        Box::new(ExpansionPredicate::Root("lower".to_string())),
        Box::new(ExpansionPredicate::Not(Box::new(ExpansionPredicate::Specified))),
    );
    assert!(eval_predicate(&p, &f));
}

#[test]
fn last_matching_filter_decides() {
    let f = facts();
    assert!(!should_verify(&Vec::new(), &f));
    let filters = vec![
        Filter { selects: true, predicate: ExpansionPredicate::Root("lower".to_string()) },
        Filter { selects: false, predicate: ExpansionPredicate::Tagged("slow".to_string()) },
        Filter { selects: true, predicate: ExpansionPredicate::Tagged("fast".to_string()) },
    ];
    assert!(!should_verify(&filters, &f));
}

#[test]
fn first_matching_solver_rule_wins() {
    let f = facts();
    assert_eq!(select_solver_backend(&Vec::new(), SolverBackend::Z3, &f), SolverBackend::Z3);
    assert_eq!(select_solver_backend(&solver_tag_rules(), SolverBackend::Z3, &f), SolverBackend::CVC5);
    let rules = vec![
        SolverRule { predicate: ExpansionPredicate::Root("lower".to_string()), solver_backend: SolverBackend::Z3 },
        SolverRule { predicate: ExpansionPredicate::Tagged("slow".to_string()), solver_backend: SolverBackend::CVC5 },
    ];
    assert_eq!(select_solver_backend(&rules, SolverBackend::CVC5, &f), SolverBackend::Z3);
}

#[test]
fn backends() {
    assert_eq!(SolverBackend::Z3.prog(), "z3");
    assert_eq!(SolverBackend::CVC5.prog(), "cvc5");
    assert_eq!(SolverBackend::from_name("cvc5"), Some(SolverBackend::CVC5));
    assert_eq!(SolverBackend::from_name("yices"), None);
    assert_eq!(SolverBackend::Z3.args(1500), vec!["-smt2", "-in", "-t:1500"]);
    assert_eq!(
        SolverBackend::CVC5.args(0),
        vec!["--incremental", "--print-success", "--tlimit-per=0", "-"]
    );
}

#[test]
fn predicates_are_read() {
    let f = facts();
    let p = ExpansionPredicate::parse("root:lower,not:specified").unwrap();
    assert!(matches!(p, ExpansionPredicate::And(_, _)));
    assert!(eval_predicate(&p, &f));
    let p = ExpansionPredicate::parse("not:tag:slow").unwrap();
    assert!(!eval_predicate(&p, &f));
    let p = ExpansionPredicate::parse("rule:iadd_base_case").unwrap();
    assert!(matches!(&p, ExpansionPredicate::ContainsRule(r) if r == "iadd_base_case"));
    assert!(matches!(ExpansionPredicate::parse("first-rule-named"), Ok(ExpansionPredicate::FirstRuleNamed)));
    assert!(matches!(ExpansionPredicate::parse("tag:"), Ok(ExpansionPredicate::Tagged(t)) if t.is_empty()));
    assert!(ExpansionPredicate::parse("bogus").is_err());
    assert!(ExpansionPredicate::parse("root:lower,").is_err());
    assert!(ExpansionPredicate::parse("").is_err());
}

#[test]
fn filters_and_solver_rules_are_read() {
    let f = Filter::parse("exclude:tag:slow").unwrap();
    assert!(!f.selects);
    assert!(matches!(&f.predicate, ExpansionPredicate::Tagged(t) if t == "slow"));
    let f = Filter::parse("include:specified").unwrap();
    assert!(f.selects);
    let f = Filter::parse("root:lower").unwrap();
    assert!(f.selects);
    assert!(Filter::parse("include:").is_err());
    let r = SolverRule::parse("cvc5=tag:slow,root:lower").unwrap();
    assert_eq!(r.solver_backend, SolverBackend::CVC5);
    assert!(matches!(r.predicate, ExpansionPredicate::And(_, _)));
    assert!(SolverRule::parse("yices=specified").is_err());
    assert!(SolverRule::parse("z3").is_err());
}
