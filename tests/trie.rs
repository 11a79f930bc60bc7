use isle_veri::trie::{BindingId, Constraint, OverlapError, Rule, compile, rules_overlap};

const IADD: usize = 1;
const ICONST: usize = 2;

/// `(iadd a b)`: the instruction at binding 0 is an `iadd`.
fn iadd_any(priority: i64, pos: usize) -> Rule {
    Rule {
        constraints: vec![(BindingId(0), Constraint::Variant(IADD))],
        priority,
        pos,
    }
}

/// `(iadd a (iconst 0))`: its second operand, binding 2, is an `iconst`
/// whose immediate, binding 3, is zero.
fn iadd_zero(priority: i64, pos: usize) -> Rule {
    Rule {
        constraints: vec![
            (BindingId(0), Constraint::Variant(IADD)),
            (BindingId(2), Constraint::Variant(ICONST)),
            (BindingId(3), Constraint::ConstInt(0)),
        ],
        priority,
        pos,
    }
}

#[test]
fn priority_resolves_overlap() {
    let set = compile(vec![iadd_any(0, 10), iadd_zero(1, 20)]).unwrap();
    // An input that both patterns match: the more specific rule fires.
    let both = vec![
        Constraint::Variant(IADD),
        Constraint::Present,
        Constraint::Variant(ICONST),
        Constraint::ConstInt(0),
    ];
    assert_eq!(set.lookup(&both), Some(1));
    // Only the general rule matches a non-zero immediate.
    let general = vec![
        Constraint::Variant(IADD),
        Constraint::Present,
        Constraint::Variant(ICONST),
        Constraint::ConstInt(5),
    ];
    assert_eq!(set.lookup(&general), Some(0));
    let neither = vec![Constraint::Variant(ICONST)];
    assert_eq!(set.lookup(&neither), None);
}

#[test]
fn equal_priority_overlap_is_reported() {
    let errs = compile(vec![iadd_any(0, 10), iadd_zero(0, 20)]).unwrap_err();
    assert_eq!(errs, vec![OverlapError { first: 0, second: 1, first_pos: 10, second_pos: 20 }]);
}

#[test]
fn disjoint_rules_do_not_overlap() {
    let a = Rule {
        constraints: vec![(BindingId(0), Constraint::ConstInt(1))],
        priority: 0,
        pos: 1,
    };
    let b = Rule {
        constraints: vec![(BindingId(0), Constraint::ConstInt(2))],
        priority: 0,
        pos: 2,
    };
    assert!(!rules_overlap(&a.constraints, &b.constraints));
    let set = compile(vec![a, b]).unwrap();
    assert_eq!(set.rules.len(), 2);
}

#[test]
fn all_overlapping_pairs_are_reported() {
    let errs = compile(vec![iadd_any(3, 1), iadd_zero(3, 2), iadd_any(3, 3), iadd_zero(4, 4)]).unwrap_err();
    let pairs: Vec<(usize, usize)> = errs.iter().map(|e| (e.first, e.second)).collect();
    assert_eq!(pairs, vec![(0, 1), (0, 2), (1, 2)]);
}

#[test]
fn rule_with_self_contradiction_overlaps_nothing() {
    let contradictory = Rule {
        constraints: vec![(BindingId(0), Constraint::Variant(IADD)), (BindingId(0), Constraint::Variant(ICONST))],
        priority: 0,
        pos: 7,
    };
    assert!(!rules_overlap(&contradictory.constraints, &iadd_any(0, 0).constraints));
    assert!(compile(vec![contradictory, iadd_any(0, 8)]).is_ok());
}
