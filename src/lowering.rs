//! Lowering spec expressions into the expression table, and term calls.
use vstd::prelude::*;
use crate::conditions::{
    BuildError, Conditions, domain_assumption, extends, folds, ids_below, lemma_folds_extends,
    lemma_interned,
};
use crate::expr::{BinaryOp, Expr, ExprId};
use crate::spec::{Modifies, SpecExpr, TermSpec, spec_size, specs_size};
use crate::symbolic::Symbolic;

verus! {

/// A scope binds names to symbolic values; the first binding of a name
/// counts.
pub type Scope = Vec<(String, Symbolic)>;

/// Index `i` holds the first binding of name `n` in `s`.
pub open spec fn binds(s: Seq<(String, Symbolic)>, n: Seq<char>, i: int) -> bool {
    &&& 0 <= i < s.len()
    &&& s[i].0@ == n
    &&& forall|k: int| 0 <= k < i ==> (#[trigger] s[k]).0@ != n
}

/// The value that name `n` is bound to in `s`.
pub open spec fn scope_lookup(s: Seq<(String, Symbolic)>, n: Seq<char>) -> Option<Symbolic> {
    if exists|i: int| binds(s, n, i) {
        Some(s[choose|i: int| binds(s, n, i)].1)
    } else {
        None
    }
}

/// Every scalar that `s` binds names an expression below `len`.
pub open spec fn scope_below(s: Seq<(String, Symbolic)>, len: int) -> bool {
    forall|k: int| 0 <= k < s.len() ==> match (#[trigger] s[k]).1 {
        Symbolic::Scalar(x) => x.0 < len,
        _ => true,
    }
}

/// Every variable of `e` is bound in `s` to a scalar, and every variadic
/// operator has operands.
pub open spec fn bound(e: SpecExpr, s: Seq<(String, Symbolic)>) -> bool
    decreases e,
{
    match e {
        SpecExpr::Var(n) => scope_lookup(s, n@) matches Some(Symbolic::Scalar(_)),
        SpecExpr::Const(_) => true,
        SpecExpr::Unary(_, a) => bound(*a, s),
        SpecExpr::Binary(_, a, b) => bound(*a, s) && bound(*b, s),
        SpecExpr::Gt(a, b) => bound(*a, s) && bound(*b, s),
        SpecExpr::Gte(a, b) => bound(*a, s) && bound(*b, s),
        SpecExpr::Conditional(c, a, b) => bound(*c, s) && bound(*a, s) && bound(*b, s),
        SpecExpr::Variadic(_, es) => es@.len() > 0 && bound_each(es@, s),
    }
}

/// The error lowering `e` in scope `s` meets first, operands being lowered
/// from left to right (the right operand of `>` and `>=` first): an unbound
/// variable, a variable bound to a value that is not a scalar, or a
/// variadic operator without operands.
pub open spec fn first_error(e: SpecExpr, s: Seq<(String, Symbolic)>) -> Option<BuildError>
    decreases e,
{
    match e {
        SpecExpr::Var(n) => match scope_lookup(s, n@) {
            None => Some(BuildError::UndefinedVariable),
            Some(Symbolic::Scalar(_)) => None,
            Some(_) => Some(BuildError::ShapeMismatch),
        },
        SpecExpr::Const(_) => None,
        SpecExpr::Unary(_, a) => first_error(*a, s),
        SpecExpr::Binary(_, a, b) => if first_error(*a, s) is Some { first_error(*a, s) } else { first_error(*b, s) },
        SpecExpr::Gt(a, b) => if first_error(*b, s) is Some { first_error(*b, s) } else { first_error(*a, s) },
        SpecExpr::Gte(a, b) => if first_error(*b, s) is Some { first_error(*b, s) } else { first_error(*a, s) },
        SpecExpr::Conditional(c, a, b) => if first_error(*c, s) is Some {
            first_error(*c, s)
        } else if first_error(*a, s) is Some {
            first_error(*a, s)
        } else {
            first_error(*b, s)
        },
        SpecExpr::Variadic(_, es) => if es@.len() == 0 {
            Some(BuildError::EmptyVariadic)
        } else {
            first_error_each(es@, s)
        },
    }
}

/// The first error lowering the expressions of `es` in order.
pub open spec fn first_error_each(es: Seq<SpecExpr>, s: Seq<(String, Symbolic)>) -> Option<BuildError>
    decreases es,
{
    if es.len() == 0 {
        None
    } else if first_error_each(es.drop_last(), s) is Some {
        first_error_each(es.drop_last(), s)
    } else {
        first_error(es.last(), s)
    }
}

/// Every expression of `es` lowers in scope `s`.
pub open spec fn bound_each(es: Seq<SpecExpr>, s: Seq<(String, Symbolic)>) -> bool
    decreases es,
{
    if es.len() == 0 {
        true
    } else {
        bound_each(es.drop_last(), s) && bound(es.last(), s)
    }
}

/// No operator of `e` is applied to zero operands.
pub open spec fn no_empty(e: SpecExpr) -> bool
    decreases e,
{
    match e {
        SpecExpr::Var(_) => true,
        SpecExpr::Const(_) => true,
        SpecExpr::Unary(_, a) => no_empty(*a),
        SpecExpr::Binary(_, a, b) => no_empty(*a) && no_empty(*b),
        SpecExpr::Gt(a, b) => no_empty(*a) && no_empty(*b),
        SpecExpr::Gte(a, b) => no_empty(*a) && no_empty(*b),
        SpecExpr::Conditional(c, a, b) => no_empty(*c) && no_empty(*a) && no_empty(*b),
        SpecExpr::Variadic(_, es) => es@.len() > 0 && no_empty_each(es@),
    }
}

pub open spec fn no_empty_each(es: Seq<SpecExpr>) -> bool
    decreases es,
{
    if es.len() == 0 {
        true
    } else {
        no_empty_each(es.drop_last()) && no_empty(es.last())
    }
}

/// Every expression of `es` has its variables bound in `s`.
pub open spec fn all_bound(es: Seq<SpecExpr>, s: Seq<(String, Symbolic)>) -> bool {
    forall|k: int| 0 <= k < es.len() ==> bound(#[trigger] es[k], s)
}

/// Expression `id` of table `t` is spec expression `e`, its variables read
/// from scope `s`.
pub open spec fn lowers(t: Seq<Expr>, id: ExprId, e: SpecExpr, s: Seq<(String, Symbolic)>) -> bool
    decreases e,
{
    match e {
        SpecExpr::Var(n) => scope_lookup(s, n@) == Some(Symbolic::Scalar(id)),
        SpecExpr::Const(c) => 0 <= id.0 < t.len() && t[id.0 as int] == Expr::Const(c),
        SpecExpr::Unary(op, a) => {
            &&& 0 <= id.0 < t.len()
            &&& match t[id.0 as int] {
                Expr::Unary(o, x) => o == op && lowers(t, x, *a, s),
                _ => false,
            }
        },
        SpecExpr::Binary(op, a, b) => {
            &&& 0 <= id.0 < t.len()
            &&& match t[id.0 as int] {
                Expr::Binary(o, x, y) => o == op && lowers(t, x, *a, s) && lowers(t, y, *b, s),
                _ => false,
            }
        },
        SpecExpr::Gt(a, b) => {
            &&& 0 <= id.0 < t.len()
            &&& match t[id.0 as int] {
                Expr::Binary(o, x, y) => o == BinaryOp::Lt && lowers(t, x, *b, s) && lowers(t, y, *a, s),
                _ => false,
            }
        },
        SpecExpr::Gte(a, b) => {
            &&& 0 <= id.0 < t.len()
            &&& match t[id.0 as int] {
                Expr::Binary(o, x, y) => o == BinaryOp::Lte && lowers(t, x, *b, s) && lowers(t, y, *a, s),
                _ => false,
            }
        },
        SpecExpr::Conditional(c, a, b) => {
            &&& 0 <= id.0 < t.len()
            &&& match t[id.0 as int] {
                Expr::Conditional(x, y, z) => lowers(t, x, *c, s) && lowers(t, y, *a, s) && lowers(t, z, *b, s),
                _ => false,
            }
        },
        SpecExpr::Variadic(op, es) => es@.len() > 0 && lowers_fold(t, id, es@, op, s),
    }
}

/// Expression `id` folds `op` from the left over the lowerings of `es`.
pub open spec fn lowers_fold(t: Seq<Expr>, id: ExprId, es: Seq<SpecExpr>, op: BinaryOp, s: Seq<(String, Symbolic)>) -> bool
    decreases es,
{
    if es.len() == 0 {
        false
    } else if es.len() == 1 {
        lowers(t, id, es[0], s)
    } else {
        &&& 0 <= id.0 < t.len()
        &&& match t[id.0 as int] {
            Expr::Binary(o, x, y) => o == op && lowers_fold(t, x, es.drop_last(), op, s) && lowers(t, y, es.last(), s),
            _ => false,
        }
    }
}

/// `ids[k]` is `es[k]` for every `k`.
pub open spec fn lowers_each(t: Seq<Expr>, ids: Seq<ExprId>, es: Seq<SpecExpr>, s: Seq<(String, Symbolic)>) -> bool {
    &&& ids.len() == es.len()
    &&& forall|k: int| 0 <= k < es.len() ==> lowers(t, #[trigger] ids[k], es[k], s)
}

/// A lowering stays a lowering in any extension of its table.
pub proof fn lemma_lowers_extends(t: Seq<Expr>, t2: Seq<Expr>, id: ExprId, e: SpecExpr, s: Seq<(String, Symbolic)>)
    requires
        lowers(t, id, e, s),
        extends(t, t2),
    ensures
        lowers(t2, id, e, s),
    decreases e,
{
    match e {
        SpecExpr::Var(_) => {},
        SpecExpr::Const(_) => {},
        SpecExpr::Unary(_, a) => {
            match t[id.0 as int] {
                Expr::Unary(_, x) => lemma_lowers_extends(t, t2, x, *a, s),
                _ => {},
            }
        },
        SpecExpr::Binary(_, a, b) => {
            match t[id.0 as int] {
                Expr::Binary(_, x, y) => {
                    lemma_lowers_extends(t, t2, x, *a, s);
                    lemma_lowers_extends(t, t2, y, *b, s);
                },
                _ => {},
            }
        },
        SpecExpr::Gt(a, b) => {
            match t[id.0 as int] {
                Expr::Binary(_, x, y) => {
                    lemma_lowers_extends(t, t2, x, *b, s);
                    lemma_lowers_extends(t, t2, y, *a, s);
                },
                _ => {},
            }
        },
        SpecExpr::Gte(a, b) => {
            match t[id.0 as int] {
                Expr::Binary(_, x, y) => {
                    lemma_lowers_extends(t, t2, x, *b, s);
                    lemma_lowers_extends(t, t2, y, *a, s);
                },
                _ => {},
            }
        },
        SpecExpr::Conditional(c, a, b) => {
            match t[id.0 as int] {
                Expr::Conditional(x, y, z) => {
                    lemma_lowers_extends(t, t2, x, *c, s);
                    lemma_lowers_extends(t, t2, y, *a, s);
                    lemma_lowers_extends(t, t2, z, *b, s);
                },
                _ => {},
            }
        },
        SpecExpr::Variadic(op, es) => {
            lemma_lowers_fold_extends(t, t2, id, es@, op, s);
        },
    }
}

/// A folded lowering stays one in any extension of its table.
pub proof fn lemma_lowers_fold_extends(t: Seq<Expr>, t2: Seq<Expr>, id: ExprId, es: Seq<SpecExpr>, op: BinaryOp, s: Seq<(String, Symbolic)>)
    requires
        lowers_fold(t, id, es, op, s),
        extends(t, t2),
    ensures
        lowers_fold(t2, id, es, op, s),
    decreases es,
{
    if es.len() == 1 {
        lemma_lowers_extends(t, t2, id, es[0], s);
    } else if es.len() > 1 {
        match t[id.0 as int] {
            Expr::Binary(_, x, y) => {
                lemma_lowers_fold_extends(t, t2, x, es.drop_last(), op, s);
                lemma_lowers_extends(t, t2, y, es.last(), s);
            },
            _ => {},
        }
    }
}

/// The conditions over a sequence hold of it exactly when they hold of
/// each element.
pub proof fn lemma_each(es: Seq<SpecExpr>, s: Seq<(String, Symbolic)>)
    ensures
        bound_each(es, s) <==> forall|i: int| 0 <= i < es.len() ==> bound(#[trigger] es[i], s),
        no_empty_each(es) <==> forall|i: int| 0 <= i < es.len() ==> no_empty(#[trigger] es[i]),
    decreases es.len(),
{
    if es.len() > 0 {
        let d = es.drop_last();
        lemma_each(d, s);
        assert forall|i: int| 0 <= i < d.len() implies d[i] == es[i] by {}
        if bound_each(es, s) {
            assert forall|i: int| 0 <= i < es.len() implies bound(#[trigger] es[i], s) by {
                if i < d.len() {
                    assert(bound(d[i], s));
                }
            }
        }
        if forall|i: int| 0 <= i < es.len() ==> bound(#[trigger] es[i], s) {
            assert forall|i: int| 0 <= i < d.len() implies bound(#[trigger] d[i], s) by {
                assert(bound(es[i], s));
            }
        }
        if no_empty_each(es) {
            assert forall|i: int| 0 <= i < es.len() implies no_empty(#[trigger] es[i]) by {
                if i < d.len() {
                    assert(no_empty(d[i]));
                }
            }
        }
        if forall|i: int| 0 <= i < es.len() ==> no_empty(#[trigger] es[i]) {
            assert forall|i: int| 0 <= i < d.len() implies no_empty(#[trigger] d[i]) by {
                assert(no_empty(es[i]));
            }
        }
    }
}

/// Lowering succeeds exactly where it meets no error.
pub proof fn lemma_first_error_bound(e: SpecExpr, s: Seq<(String, Symbolic)>)
    ensures
        bound(e, s) <==> first_error(e, s) is None,
    decreases e,
{
    match e {
        SpecExpr::Var(_) => {},
        SpecExpr::Const(_) => {},
        SpecExpr::Unary(_, a) => lemma_first_error_bound(*a, s),
        SpecExpr::Binary(_, a, b) => {
            lemma_first_error_bound(*a, s);
            lemma_first_error_bound(*b, s);
        },
        SpecExpr::Gt(a, b) => {
            lemma_first_error_bound(*a, s);
            lemma_first_error_bound(*b, s);
        },
        SpecExpr::Gte(a, b) => {
            lemma_first_error_bound(*a, s);
            lemma_first_error_bound(*b, s);
        },
        SpecExpr::Conditional(c, a, b) => {
            lemma_first_error_bound(*c, s);
            lemma_first_error_bound(*a, s);
            lemma_first_error_bound(*b, s);
        },
        SpecExpr::Variadic(_, es) => {
            lemma_each(es@, s);
            lemma_first_error_each_none(es@, s);
            assert forall|i: int| 0 <= i < es@.len() implies (bound(#[trigger] es@[i], s) <==> first_error(es@[i], s) is None) by {
                lemma_first_error_bound(es@[i], s);
            }
        },
    }
}

/// No error, or one of the three kinds lowering meets.
pub open spec fn error_kind(o: Option<BuildError>) -> bool {
    match o {
        Some(k) => k == BuildError::UndefinedVariable || k == BuildError::ShapeMismatch || k == BuildError::EmptyVariadic,
        None => true,
    }
}

/// Lowering errors are of three kinds only.
pub proof fn lemma_first_error_kinds(e: SpecExpr, s: Seq<(String, Symbolic)>)
    ensures
        error_kind(first_error(e, s)),
    decreases e,
{
    match e {
        SpecExpr::Var(_) => {},
        SpecExpr::Const(_) => {},
        SpecExpr::Unary(_, a) => lemma_first_error_kinds(*a, s),
        SpecExpr::Binary(_, a, b) => {
            lemma_first_error_kinds(*a, s);
            lemma_first_error_kinds(*b, s);
        },
        SpecExpr::Gt(a, b) => {
            lemma_first_error_kinds(*a, s);
            lemma_first_error_kinds(*b, s);
        },
        SpecExpr::Gte(a, b) => {
            lemma_first_error_kinds(*a, s);
            lemma_first_error_kinds(*b, s);
        },
        SpecExpr::Conditional(c, a, b) => {
            lemma_first_error_kinds(*c, s);
            lemma_first_error_kinds(*a, s);
            lemma_first_error_kinds(*b, s);
        },
        SpecExpr::Variadic(_, es) => {
            assert forall|i: int| 0 <= i < es@.len() implies error_kind(#[trigger] first_error(es@[i], s)) by {
                lemma_first_error_kinds(es@[i], s);
            }
            lemma_first_error_each_kinds(es@, s);
        },
    }
}

proof fn lemma_first_error_each_kinds(es: Seq<SpecExpr>, s: Seq<(String, Symbolic)>)
    requires
        forall|i: int| 0 <= i < es.len() ==> error_kind(#[trigger] first_error(es[i], s)),
    ensures
        error_kind(first_error_each(es, s)),
    decreases es.len(),
{
    if es.len() > 0 {
        let d = es.drop_last();
        assert forall|i: int| 0 <= i < d.len() implies error_kind(#[trigger] first_error(d[i], s)) by {
            assert(d[i] == es[i]);
        }
        lemma_first_error_each_kinds(d, s);
        assert(es.last() == es[es.len() - 1]);
        assert(error_kind(first_error(es[es.len() - 1], s)));
    }
}

/// A sequence meets no error exactly when none of its expressions does.
pub proof fn lemma_first_error_each_none(es: Seq<SpecExpr>, s: Seq<(String, Symbolic)>)
    ensures
        first_error_each(es, s) is None <==> forall|i: int| 0 <= i < es.len() ==> (#[trigger] first_error(es[i], s)) is None,
    decreases es.len(),
{
    if es.len() > 0 {
        let d = es.drop_last();
        lemma_first_error_each_none(d, s);
        assert(es.last() == es[es.len() - 1]);
        assert forall|i: int| 0 <= i < d.len() implies d[i] == es[i] by {}
        if forall|i: int| 0 <= i < es.len() ==> (#[trigger] first_error(es[i], s)) is None {
            assert forall|i: int| 0 <= i < d.len() implies (#[trigger] first_error(d[i], s)) is None by {
                assert(first_error(es[i], s) is None);
            }
            assert(first_error(es[es.len() - 1], s) is None);
        }
        if first_error_each(es, s) is None {
            assert forall|i: int| 0 <= i < es.len() implies (#[trigger] first_error(es[i], s)) is None by {
                if i < d.len() {
                    assert(first_error(d[i], s) is None);
                }
            }
        }
    }
}

/// The first error of a prefix is the first error of the whole.
pub proof fn lemma_first_error_prefix(es: Seq<SpecExpr>, i: int, s: Seq<(String, Symbolic)>)
    requires
        0 <= i <= es.len(),
        first_error_each(es.take(i), s) is Some,
    ensures
        first_error_each(es, s) == first_error_each(es.take(i), s),
    decreases es.len(),
{
    if i < es.len() {
        let d = es.drop_last();
        assert(d.take(i) =~= es.take(i));
        lemma_first_error_prefix(d, i, s);
    } else {
        assert(es.take(i) =~= es);
    }
}

/// The scalar a name is bound to in a scope. Fails when the name is not
/// bound, or is bound to a value that is not a scalar.
pub fn lookup(scope: &Scope, name: &String) -> (r: Result<ExprId, BuildError>)
    ensures
        match scope_lookup(scope@, name@) {
            Some(Symbolic::Scalar(x)) => r == Ok::<ExprId, BuildError>(x),
            Some(_) => r == Err::<ExprId, BuildError>(BuildError::ShapeMismatch),
            None => r == Err::<ExprId, BuildError>(BuildError::UndefinedVariable),
        },
{
    let mut i: usize = 0;
    while i < scope.len()
        invariant
            i <= scope@.len(),
            forall|k: int| 0 <= k < i ==> (#[trigger] scope@[k]).0@ != name@,
        decreases scope@.len() - i,
    {
        if scope[i].0 == *name {
            proof {
                assert(binds(scope@, name@, i as int));
                let j = choose|j: int| binds(scope@, name@, j);
                if j < i {
                    assert(scope@[j].0@ != name@);
                } else if j > i {
                    assert(scope@[i as int].0@ != name@);
                }
            }
            return match &scope[i].1 {
                Symbolic::Scalar(x) => Ok(*x),
                _ => Err(BuildError::ShapeMismatch),
            };
        }
        i = i + 1;
    }
    Err(BuildError::UndefinedVariable)
}

impl Conditions {
    /// Lower a spec expression, reading its variables from `scope`. Fails
    /// when a variable is not in scope.
    #[verifier::rlimit(100)]
    #[verifier::spinoff_prover]
    pub fn spec_expr(&mut self, e: &SpecExpr, scope: &Scope) -> (r: Result<ExprId, BuildError>)
        requires
            old(self).wf(),
            scope_below(scope@, old(self).exprs@.len() as int),
            old(self).exprs@.len() + spec_size(*e) < usize::MAX,
        ensures
            final(self).wf(),
            final(self).grows_from(old(self)),
            final(self).assumptions == old(self).assumptions,
            final(self).assertions == old(self).assertions,
            final(self).calls == old(self).calls,
            final(self).exprs@.len() <= old(self).exprs@.len() + spec_size(*e),
            r is Ok <==> bound(*e, scope@),
            r is Ok <==> first_error(*e, scope@) is None,
            r is Err ==> first_error(*e, scope@) == Some(r->Err_0),
            r is Err ==> r->Err_0 == BuildError::UndefinedVariable || r->Err_0 == BuildError::ShapeMismatch
                || r->Err_0 == BuildError::EmptyVariadic,
            r is Ok ==> r->Ok_0.0 < final(self).exprs@.len() && lowers(final(self).exprs@, r->Ok_0, *e, scope@),
        decreases *e,
    {
        proof {
            lemma_first_error_bound(*e, scope@);
            lemma_first_error_kinds(*e, scope@);
        }
        match e {
            SpecExpr::Var(n) => match lookup(scope, n) {
                Ok(x) => {
                    proof {
                        let i = choose|i: int| binds(scope@, n@, i);
                        assert(match scope@[i].1 { Symbolic::Scalar(y) => y.0 < old(self).exprs@.len(), _ => true });
                    }
                    Ok(x)
                },
                Err(err) => Err(err),
            },
            SpecExpr::Const(c) => {
                let r = self.constant(*c);
                Ok(r)
            },
            SpecExpr::Unary(op, a) => {
                let x = self.spec_expr(a, scope)?;
                let ghost t = self.exprs@;
                let ex = Expr::Unary(*op, x);
                let r = self.dedup_expr(ex);
                proof {
                    lemma_interned(t, ex);
                    lemma_lowers_extends(t, self.exprs@, x, **a, scope@);
                }
                Ok(r)
            },
            SpecExpr::Binary(op, a, b) => {
                let ghost t0 = self.exprs@;
                let x = self.spec_expr(a, scope)?;
                let ghost t1 = self.exprs@;
                let y = match self.spec_expr(b, scope) {
                    Ok(y) => y,
                    Err(err) => return Err(err),
                };
                let ghost t2 = self.exprs@;
                let ex = Expr::Binary(*op, x, y);
                let r = self.dedup_expr(ex);
                proof {
                    lemma_interned(t2, ex);
                    lemma_lowers_extends(t1, self.exprs@, x, **a, scope@);
                    lemma_lowers_extends(t2, self.exprs@, y, **b, scope@);
                }
                Ok(r)
            },
            SpecExpr::Gt(a, b) => {
                let x = self.spec_expr(b, scope)?;
                let ghost t1 = self.exprs@;
                let y = match self.spec_expr(a, scope) {
                    Ok(y) => y,
                    Err(err) => return Err(err),
                };
                let ghost t2 = self.exprs@;
                let ex = Expr::Binary(BinaryOp::Lt, x, y);
                let r = self.dedup_expr(ex);
                proof {
                    lemma_interned(t2, ex);
                    lemma_lowers_extends(t1, self.exprs@, x, **b, scope@);
                    lemma_lowers_extends(t2, self.exprs@, y, **a, scope@);
                }
                Ok(r)
            },
            SpecExpr::Gte(a, b) => {
                let x = self.spec_expr(b, scope)?;
                let ghost t1 = self.exprs@;
                let y = match self.spec_expr(a, scope) {
                    Ok(y) => y,
                    Err(err) => return Err(err),
                };
                let ghost t2 = self.exprs@;
                let ex = Expr::Binary(BinaryOp::Lte, x, y);
                let r = self.dedup_expr(ex);
                proof {
                    lemma_interned(t2, ex);
                    lemma_lowers_extends(t1, self.exprs@, x, **b, scope@);
                    lemma_lowers_extends(t2, self.exprs@, y, **a, scope@);
                }
                Ok(r)
            },
            SpecExpr::Variadic(op, es) => {
                if es.len() == 0 {
                    return Err(BuildError::EmptyVariadic);
                }
                proof {
                    lemma_each(es@, scope@);
                    lemma_specs_size_take(es@, 0);
                    lemma_specs_size_take(es@, 1);
                    assert(es@.take(1) =~= seq![es@[0]]);
                    assert(es@.take(1).drop_last() =~= Seq::<SpecExpr>::empty());
                    assert(first_error_each(Seq::<SpecExpr>::empty(), scope@) is None);
                }
                let ghost t0 = self.exprs@;
                let mut acc = match self.spec_expr(&es[0], scope) {
                    Ok(x) => x,
                    Err(err) => {
                        proof {
                            lemma_first_error_prefix(es@, 1, scope@);
                        }
                        return Err(err);
                    },
                };
                let mut i: usize = 1;
                while i < es.len()
                    invariant
                        1 <= i <= es@.len(),
                        self.wf(),
                        self.grows_from(old(self)),
                        self.assumptions == old(self).assumptions,
                        self.assertions == old(self).assertions,
                        self.calls == old(self).calls,
                        scope_below(scope@, old(self).exprs@.len() as int),
                        old(self).exprs@.len() + spec_size(*e) < usize::MAX,
                        *e == SpecExpr::Variadic(*op, *es),
                        spec_size(*e) == 1 + es@.len() + specs_size(es@),
                        self.exprs@.len() <= old(self).exprs@.len() + specs_size(es@.take(i as int)) + i,
                        forall|j: int| 0 <= j < i ==> bound(#[trigger] es@[j], scope@),
                        first_error_each(es@.take(i as int), scope@) is None,
                        acc.0 < self.exprs@.len(),
                        lowers_fold(self.exprs@, acc, es@.take(i as int), *op, scope@),
                    decreases es@.len() - i,
                {
                    proof {
                        lemma_specs_size_take(es@, i as int);
                        lemma_specs_size_take(es@, i as int + 1);
                    }
                    let ghost t1 = self.exprs@;
                    let y = match self.spec_expr(&es[i], scope) {
                        Ok(y) => y,
                        Err(err) => {
                            proof {
                                lemma_each(es@, scope@);
                                let tk = es@.take(i as int + 1);
                                assert(tk.drop_last() =~= es@.take(i as int));
                                assert(tk.last() == es@[i as int]);
                                lemma_first_error_prefix(es@, i as int + 1, scope@);
                            }
                            return Err(err);
                        },
                    };
                    let ghost t2 = self.exprs@;
                    let ex = Expr::Binary(*op, acc, y);
                    let next = self.dedup_expr(ex);
                    proof {
                        lemma_interned(t2, ex);
                        lemma_lowers_fold_extends(t1, self.exprs@, acc, es@.take(i as int), *op, scope@);
                        lemma_lowers_extends(t2, self.exprs@, y, es@[i as int], scope@);
                        let tk = es@.take(i as int + 1);
                        assert(tk.drop_last() =~= es@.take(i as int));
                        assert(tk.last() == es@[i as int]);
                        lemma_first_error_bound(es@[i as int], scope@);
                    }
                    acc = next;
                    i = i + 1;
                }
                proof {
                    assert(es@.take(es@.len() as int) =~= es@);
                    lemma_each(es@, scope@);
                    lemma_specs_size_take(es@, es@.len() as int);
                }
                Ok(acc)
            },
            SpecExpr::Conditional(c, a, b) => {
                let x = self.spec_expr(c, scope)?;
                let ghost t1 = self.exprs@;
                let y = match self.spec_expr(a, scope) {
                    Ok(y) => y,
                    Err(err) => return Err(err),
                };
                let ghost t2 = self.exprs@;
                let z = match self.spec_expr(b, scope) {
                    Ok(z) => z,
                    Err(err) => return Err(err),
                };
                let ghost t3 = self.exprs@;
                let ex = Expr::Conditional(x, y, z);
                let r = self.dedup_expr(ex);
                proof {
                    lemma_interned(t3, ex);
                    lemma_lowers_extends(t1, self.exprs@, x, **c, scope@);
                    lemma_lowers_extends(t2, self.exprs@, y, **a, scope@);
                    lemma_lowers_extends(t3, self.exprs@, z, **b, scope@);
                }
                Ok(r)
            },
        }
    }
}


/// Whether a term is called as a constructor (its arguments are inputs) or as
/// an extractor (its result is the input and its arguments the outputs).
#[derive(Clone, Copy, Debug, PartialEq, Eq, Structural)]
pub enum TermKind {
    Constructor,
    Extractor,
}

/// Whether the call site trusts the callee's contract (`Caller`) or the
/// callee's own contract is being proven (`Callee`).
#[derive(Clone, Copy, Debug, PartialEq, Eq, Structural)]
pub enum Invocation {
    Caller,
    Callee,
}

/// A total function, or a partial one with the presence flag of its result.
#[derive(Clone, Copy, Debug, PartialEq, Eq, Structural)]
pub enum Domain {
    Total,
    Partial(ExprId),
}

/// Each name of `names` bound to the value at the same index.
pub open spec fn named(names: Seq<String>, vals: Seq<ExprId>) -> Seq<(String, Symbolic)> {
    Seq::new(names.len(), |k: int| (names[k], Symbolic::Scalar(vals[k])))
}

/// Scope of the `requires` and `matches` clauses: the modification
/// conditions `cs`, then the inputs.
pub open spec fn call_inputs(cs: Seq<(String, Symbolic)>, spec: TermSpec, kind: TermKind, args: Seq<ExprId>, ret: ExprId) -> Seq<(String, Symbolic)> {
    cs + match kind {
        TermKind::Constructor => named(spec.args@, args),
        TermKind::Extractor => seq![(spec.ret, Symbolic::Scalar(ret))],
    }
}

/// Scope of the `provides` clauses: the modification conditions `cs`, the
/// inputs, then the outputs.
pub open spec fn call_scope(cs: Seq<(String, Symbolic)>, spec: TermSpec, kind: TermKind, args: Seq<ExprId>, ret: ExprId) -> Seq<(String, Symbolic)> {
    cs + match kind {
        TermKind::Constructor => named(spec.args@, args) + seq![(spec.ret, Symbolic::Scalar(ret))],
        TermKind::Extractor => seq![(spec.ret, Symbolic::Scalar(ret))] + named(spec.args@, args),
    }
}

/// Expression `g` is `any(ms) ==> all(ps)`: provides that need hold only
/// where a partial function applies.
pub open spec fn guarded(t: Seq<Expr>, g: ExprId, ms: Seq<ExprId>, ps: Seq<ExprId>) -> bool {
    &&& 0 <= g.0 < t.len()
    &&& match t[g.0 as int] {
        Expr::Binary(BinaryOp::Imp, x, y) => folds(t, x, ms, BinaryOp::Or, false) && folds(t, y, ps, BinaryOp::And, true),
        _ => false,
    }
}

/// What a call adds: `assumed` to the assumptions and `asserted` to the
/// assertions. A caller asserts the callee's `requires` and assumes its
/// `provides`; the callee's own proof does the reverse. For a partial
/// function the presence flag is assumed equal to the disjunction of the
/// `matches` clauses, and the `provides` are guarded by that disjunction.
pub open spec fn call_effect(
    t: Seq<Expr>,
    spec: TermSpec,
    ins: Seq<(String, Symbolic)>,
    full: Seq<(String, Symbolic)>,
    invocation: Invocation,
    domain: Domain,
    assumed: Seq<ExprId>,
    asserted: Seq<ExprId>,
) -> bool {
    match domain {
        Domain::Total => match invocation {
            Invocation::Caller => lowers_each(t, asserted, spec.requires@, ins) && lowers_each(t, assumed, spec.provides@, full),
            Invocation::Callee => lowers_each(t, assumed, spec.requires@, ins) && lowers_each(t, asserted, spec.provides@, full),
        },
        Domain::Partial(p) => exists|ms: Seq<ExprId>, ps: Seq<ExprId>| {
            &&& lowers_each(t, ms, spec.matches@, ins)
            &&& lowers_each(t, ps, spec.provides@, full)
            &&& #[trigger] partial_effect(t, spec, ins, invocation, p, ms, ps, assumed, asserted)
        },
    }
}

/// The additions of a call to a partial function, given the lowered
/// `matches` clauses `ms` and `provides` clauses `ps`.
pub open spec fn partial_effect(
    t: Seq<Expr>,
    spec: TermSpec,
    ins: Seq<(String, Symbolic)>,
    invocation: Invocation,
    p: ExprId,
    ms: Seq<ExprId>,
    ps: Seq<ExprId>,
    assumed: Seq<ExprId>,
    asserted: Seq<ExprId>,
) -> bool {
    &&& assumed.len() >= 1
    &&& domain_assumption(t, assumed[0], p, ms)
    &&& match invocation {
        Invocation::Caller => {
            &&& assumed.len() == 2
            &&& guarded(t, assumed[1], ms, ps)
            &&& lowers_each(t, asserted, spec.requires@, ins)
        },
        Invocation::Callee => {
            &&& lowers_each(t, assumed.drop_first(), spec.requires@, ins)
            &&& asserted.len() == 1
            &&& guarded(t, asserted[0], ms, ps)
        },
    }
}

/// Lowerings stay lowerings in any extension of their table.
pub proof fn lemma_lowers_each_extends(t: Seq<Expr>, t2: Seq<Expr>, ids: Seq<ExprId>, es: Seq<SpecExpr>, s: Seq<(String, Symbolic)>)
    requires
        lowers_each(t, ids, es, s),
        extends(t, t2),
    ensures
        lowers_each(t2, ids, es, s),
{
    assert forall|k: int| 0 <= k < es.len() implies lowers(t2, #[trigger] ids[k], es[k], s) by {
        lemma_lowers_extends(t, t2, ids[k], es[k], s);
    }
}

/// The nodes of a prefix are no more than those of the whole, and the last
/// expression of a prefix adds its own nodes.
pub proof fn lemma_specs_size_take(es: Seq<SpecExpr>, i: int)
    requires
        0 <= i <= es.len(),
    ensures
        specs_size(es.take(i)) <= specs_size(es),
        i < es.len() ==> specs_size(es.take(i + 1)) == specs_size(es.take(i)) + spec_size(es[i]),
        es.len() <= specs_size(es),
    decreases es.len(),
{
    if es.len() > 0 {
        let d = es.drop_last();
        if i < es.len() {
            lemma_specs_size_take(d, i);
            assert(d.take(i) =~= es.take(i));
            assert(es.take(i + 1).drop_last() =~= es.take(i));
        } else {
            assert(es.take(i) =~= es);
            lemma_specs_size_take(d, 0);
        }
        lemma_specs_size_take(d, d.len() as int);
        assert(spec_size(es.last()) >= 1) by {
            match es.last() {
                SpecExpr::Var(_) => {},
                SpecExpr::Const(_) => {},
                SpecExpr::Unary(_, _) => {},
                SpecExpr::Binary(_, _, _) => {},
                SpecExpr::Gt(_, _) => {},
                SpecExpr::Gte(_, _) => {},
                SpecExpr::Conditional(_, _, _) => {},
                SpecExpr::Variadic(_, _) => {},
            }
        }
    }
}

/// Append `xs` to `dst`.
fn push_all(dst: &mut Vec<ExprId>, xs: &Vec<ExprId>)
    ensures
        final(dst)@ == old(dst)@ + xs@,
{
    let mut i: usize = 0;
    while i < xs.len()
        invariant
            i <= xs@.len(),
            dst@ == old(dst)@ + xs@.take(i as int),
        decreases xs@.len() - i,
    {
        dst.push(xs[i]);
        proof {
            assert(xs@.take(i as int + 1) =~= xs@.take(i as int).push(xs@[i as int]));
        }
        i = i + 1;
    }
    proof {
        assert(xs@.take(xs@.len() as int) =~= xs@);
    }
}

/// Every value `s` binds is a scalar.
pub open spec fn all_scalar(s: Seq<(String, Symbolic)>) -> bool {
    forall|k: int| 0 <= k < s.len() ==> (#[trigger] s[k]).1 is Scalar
}

/// A copy of a scope of scalars.
fn copy_scope(s: &Scope) -> (r: Scope)
    requires
        all_scalar(s@),
    ensures
        r@ == s@,
{
    let mut r: Scope = Vec::new();
    append_scope(&mut r, s);
    r
}

/// Append a copy of a scope of scalars.
fn append_scope(dst: &mut Scope, s: &Scope)
    requires
        all_scalar(s@),
    ensures
        final(dst)@ == old(dst)@ + s@,
{
    let mut i: usize = 0;
    while i < s.len()
        invariant
            i <= s@.len(),
            all_scalar(s@),
            dst@ == old(dst)@ + s@.take(i as int),
        decreases s@.len() - i,
    {
        let x = match &s[i].1 {
            Symbolic::Scalar(x) => *x,
            _ => {
                proof {
                    assert(s@[i as int].1 is Scalar);
                }
                ExprId(0)
            },
        };
        dst.push((s[i].0.clone(), Symbolic::Scalar(x)));
        proof {
            assert(s@.take(i as int + 1) =~= s@.take(i as int).push(s@[i as int]));
        }
        i = i + 1;
    }
    proof {
        assert(s@.take(s@.len() as int) =~= s@);
    }
}

/// Bind each name of `names` to the value at the same index.
fn bind_names(names: &Vec<String>, vals: &Vec<ExprId>) -> (r: Scope)
    requires
        names@.len() == vals@.len(),
    ensures
        r@ == named(names@, vals@),
{
    let mut r: Scope = Vec::new();
    let mut i: usize = 0;
    while i < names.len()
        invariant
            i <= names@.len(),
            names@.len() == vals@.len(),
            r@ == named(names@.take(i as int), vals@),
        decreases names@.len() - i,
    {
        let n = names[i].clone();
        r.push((n, Symbolic::Scalar(vals[i])));
        proof {
            assert(named(names@.take(i as int + 1), vals@) =~= named(names@.take(i as int), vals@).push((names@[i as int], Symbolic::Scalar(vals@[i as int]))));
        }
        i = i + 1;
    }
    proof {
        assert(names@.take(names@.len() as int) =~= names@);
    }
    r
}

impl Conditions {
    /// Lower each spec expression of `es`.
    pub fn spec_exprs(&mut self, es: &Vec<SpecExpr>, scope: &Scope) -> (r: Result<Vec<ExprId>, BuildError>)
        requires
            old(self).wf(),
            scope_below(scope@, old(self).exprs@.len() as int),
            old(self).exprs@.len() + specs_size(es@) < usize::MAX,
        ensures
            final(self).wf(),
            final(self).grows_from(old(self)),
            final(self).assumptions == old(self).assumptions,
            final(self).assertions == old(self).assertions,
            final(self).calls == old(self).calls,
            final(self).exprs@.len() <= old(self).exprs@.len() + specs_size(es@),
            r is Ok <==> all_bound(es@, scope@),
            r is Ok <==> first_error_each(es@, scope@) is None,
            r is Err ==> first_error_each(es@, scope@) == Some(r->Err_0),
            r is Err ==> r->Err_0 == BuildError::UndefinedVariable || r->Err_0 == BuildError::ShapeMismatch
                || r->Err_0 == BuildError::EmptyVariadic,
            r is Ok ==> lowers_each(final(self).exprs@, r->Ok_0@, es@, scope@)
                && ids_below(r->Ok_0@, final(self).exprs@.len() as int),
    {
        let mut ids: Vec<ExprId> = Vec::new();
        let mut i: usize = 0;
        proof {
            assert(es@.take(0) =~= Seq::<SpecExpr>::empty());
        }
        while i < es.len()
            invariant
                i <= es@.len(),
                self.wf(),
                self.grows_from(old(self)),
                self.assumptions == old(self).assumptions,
                self.assertions == old(self).assertions,
                self.calls == old(self).calls,
                scope_below(scope@, old(self).exprs@.len() as int),
                old(self).exprs@.len() + specs_size(es@) < usize::MAX,
                self.exprs@.len() <= old(self).exprs@.len() + specs_size(es@.take(i as int)),
                all_bound(es@.take(i as int), scope@),
                first_error_each(es@.take(i as int), scope@) is None,
                lowers_each(self.exprs@, ids@, es@.take(i as int), scope@),
                ids_below(ids@, self.exprs@.len() as int),
            decreases es@.len() - i,
        {
            proof {
                lemma_specs_size_take(es@, i as int);
                lemma_specs_size_take(es@, i as int + 1);
            }
            let ghost t = self.exprs@;
            let x = match self.spec_expr(&es[i], scope) {
                Ok(x) => x,
                Err(err) => {
                    proof {
                        let tk = es@.take(i as int + 1);
                        assert(tk.drop_last() =~= es@.take(i as int));
                        assert(tk.last() == es@[i as int]);
                        lemma_first_error_prefix(es@, i as int + 1, scope@);
                        assert(!bound(es@[i as int], scope@));
                    }
                    return Err(err);
                },
            };
            proof {
                lemma_lowers_each_extends(t, self.exprs@, ids@, es@.take(i as int), scope@);
                let tk = es@.take(i as int + 1);
                assert(tk.drop_last() =~= es@.take(i as int));
                assert(tk.last() == es@[i as int]);
            }
            ids.push(x);
            proof {
                let tk = es@.take(i as int + 1);
                assert(tk.drop_last() =~= es@.take(i as int));
                assert forall|k: int| 0 <= k < tk.len() implies bound(#[trigger] tk[k], scope@) by {
                    if k < i {
                        assert(tk[k] == es@.take(i as int)[k]);
                    }
                }
                assert forall|k: int| 0 <= k < tk.len() implies lowers(self.exprs@, #[trigger] ids@[k], tk[k], scope@) by {
                    if k < i {
                        assert(tk[k] == es@.take(i as int)[k]);
                    }
                }
            }
            i = i + 1;
        }
        proof {
            assert(es@.take(es@.len() as int) =~= es@);
        }
        Ok(ids)
    }
}


impl Conditions {
    /// Emit the conditions of one call of a term with contract `spec`: its
    /// arguments `args` and result `ret` are bound to the names of the spec,
    /// the clauses are lowered, and each is assumed or asserted as
    /// `call_effect` says.
    #[verifier::rlimit(100)]
    #[verifier::spinoff_prover]
    pub fn call(
        &mut self,
        term: usize,
        spec: &TermSpec,
        kind: TermKind,
        args: &Vec<ExprId>,
        ret: ExprId,
        invocation: Invocation,
        domain: Domain,
        conds: &Scope,
    ) -> (r: Result<(), BuildError>)
        requires
            old(self).wf(),
            all_scalar(conds@),
            scope_below(conds@, old(self).exprs@.len() as int),
            ids_below(args@, old(self).exprs@.len() as int),
            ret.0 < old(self).exprs@.len(),
            domain matches Domain::Partial(p) ==> p.0 < old(self).exprs@.len(),
            old(self).exprs@.len() + 2 * spec.size() + 8 < usize::MAX,
        ensures
            final(self).wf(),
            final(self).grows_from(old(self)),
            (r == Err::<(), BuildError>(BuildError::IncorrectArgumentCount)) <==> spec.args@.len() != args@.len(),
            (r is Err && (spec.args@.len() != args@.len() || (domain == Domain::Total && spec.matches@.len() > 0)))
                ==> final(self).exprs == old(self).exprs && final(self).variables == old(self).variables,
            spec.args@.len() == args@.len() ==> ((r == Err::<(), BuildError>(BuildError::MatchesOnTotalFunction))
                <==> (domain == Domain::Total && spec.matches@.len() > 0)),
            (r is Ok) <==> {
                &&& spec.args@.len() == args@.len()
                &&& !(domain == Domain::Total && spec.matches@.len() > 0)
                &&& all_bound(spec.requires@, call_inputs(conds@, *spec, kind, args@, ret))
                &&& all_bound(spec.matches@, call_inputs(conds@, *spec, kind, args@, ret))
                &&& all_bound(spec.provides@, call_scope(conds@, *spec, kind, args@, ret))
            },
            r is Err ==> final(self).assumptions == old(self).assumptions && final(self).assertions == old(self).assertions,
            r is Ok ==> call_effect(
                final(self).exprs@,
                *spec,
                call_inputs(conds@, *spec, kind, args@, ret),
                call_scope(conds@, *spec, kind, args@, ret),
                invocation,
                domain,
                final(self).assumptions@.subrange(old(self).assumptions@.len() as int, final(self).assumptions@.len() as int),
                final(self).assertions@.subrange(old(self).assertions@.len() as int, final(self).assertions@.len() as int),
            ),
            r is Ok ==> extends(old(self).assumptions@, final(self).assumptions@)
                && extends(old(self).assertions@, final(self).assertions@),
            r is Ok ==> final(self).calls@.len() == old(self).calls@.len() + 1
                && final(self).calls@.last().term == term
                && final(self).calls@.last().args@ == args@
                && final(self).calls@.last().ret == ret,
            r is Err ==> final(self).calls@ == old(self).calls@,
    {
        if spec.args.len() != args.len() {
            return Err(BuildError::IncorrectArgumentCount);
        }
        if domain == Domain::Total && spec.matches.len() > 0 {
            return Err(BuildError::MatchesOnTotalFunction);
        }

        // Inputs are in scope of requires and matches; outputs only of provides.
        let named_args = bind_names(&spec.args, args);
        let mut inputs: Scope = copy_scope(conds);
        let mut scope: Scope = copy_scope(conds);
        match kind {
            TermKind::Constructor => {
                append_scope(&mut inputs, &named_args);
                append_scope(&mut scope, &named_args);
                scope.push((spec.ret.clone(), Symbolic::Scalar(ret)));
                proof {
                    assert(scope@ =~= conds@ + (named(spec.args@, args@) + seq![(spec.ret, Symbolic::Scalar(ret))]));
                }
            },
            TermKind::Extractor => {
                inputs.push((spec.ret.clone(), Symbolic::Scalar(ret)));
                scope.push((spec.ret.clone(), Symbolic::Scalar(ret)));
                let mut k: usize = 0;
                while k < named_args.len()
                    invariant
                        k <= named_args@.len(),
                        named_args@ == named(spec.args@, args@),
                        spec.args@.len() == args@.len(),
                        scope@ == conds@ + seq![(spec.ret, Symbolic::Scalar(ret))] + named_args@.take(k as int),
                    decreases named_args@.len() - k,
                {
                    scope.push((named_args[k].0.clone(), Symbolic::Scalar(args[k])));
                    proof {
                        assert(named_args@.take(k as int + 1) =~= named_args@.take(k as int).push(named_args@[k as int]));
                    }
                    k = k + 1;
                }
                proof {
                    assert(named_args@.take(named_args@.len() as int) =~= named_args@);
                    assert(scope@ =~= conds@ + (seq![(spec.ret, Symbolic::Scalar(ret))] + named(spec.args@, args@)));
                }
            },
        }
        proof {
            assert(inputs@ =~= call_inputs(conds@, *spec, kind, args@, ret));
            assert(scope@ =~= call_scope(conds@, *spec, kind, args@, ret));
            let n0 = old(self).exprs@.len() as int;
            assert(scope_below(inputs@, n0)) by {
                assert forall|k: int| 0 <= k < inputs@.len() implies match (#[trigger] inputs@[k]).1 {
                    Symbolic::Scalar(x) => x.0 < n0,
                    _ => true,
                } by {
                    if k < conds@.len() {
                        assert(inputs@[k] == conds@[k]);
                    }
                }
            }
            assert(scope_below(scope@, n0)) by {
                assert forall|k: int| 0 <= k < scope@.len() implies match (#[trigger] scope@[k]).1 {
                    Symbolic::Scalar(x) => x.0 < n0,
                    _ => true,
                } by {
                    if k < conds@.len() {
                        assert(scope@[k] == conds@[k]);
                    }
                }
            }
            lemma_specs_size_take(spec.requires@, 0);
            lemma_specs_size_take(spec.matches@, 0);
            lemma_specs_size_take(spec.provides@, 0);
        }

        let ghost t0 = self.exprs@;
        let pre = self.spec_exprs(&spec.requires, &inputs)?;
        let ghost t1 = self.exprs@;
        let matches = match self.spec_exprs(&spec.matches, &inputs) {
            Ok(m) => m,
            Err(err) => return Err(err),
        };
        let ghost t2 = self.exprs@;
        let provides = match self.spec_exprs(&spec.provides, &scope) {
            Ok(p) => p,
            Err(err) => return Err(err),
        };
        let ghost t3 = self.exprs@;
        proof {
            lemma_lowers_each_extends(t1, t3, pre@, spec.requires@, inputs@);
            lemma_lowers_each_extends(t2, t3, matches@, spec.matches@, inputs@);
        }

        match domain {
            Domain::Partial(p) => {
                // The function applies exactly where one of its matches holds,
                // and its provides need hold only there.
                let any_matches = self.any(&matches);
                let ghost t4 = self.exprs@;
                let eq = self.exprs_equal(p, any_matches);
                let ghost t5 = self.exprs@;
                let all_provides = self.all(&provides);
                let ghost t6 = self.exprs@;
                let ex = Expr::Binary(BinaryOp::Imp, any_matches, all_provides);
                let guard = self.dedup_expr(ex);
                let ghost t = self.exprs@;
                proof {
                    lemma_interned(t6, ex);
                    lemma_interned(t4, Expr::Binary(BinaryOp::Eq, p, any_matches));
                    lemma_folds_extends(t4, t, any_matches, matches@, BinaryOp::Or, false);
                    lemma_folds_extends(t6, t, all_provides, provides@, BinaryOp::And, true);
                    lemma_lowers_each_extends(t3, t, pre@, spec.requires@, inputs@);
                    lemma_lowers_each_extends(t3, t, matches@, spec.matches@, inputs@);
                    lemma_lowers_each_extends(t3, t, provides@, spec.provides@, scope@);
                    assert(domain_assumption(t, eq, p, matches@));
                    assert(guarded(t, guard, matches@, provides@));
                }
                let ghost a0 = self.assumptions@;
                let ghost s0 = self.assertions@;
                self.assumptions.push(eq);
                match invocation {
                    Invocation::Caller => {
                        self.assumptions.push(guard);
                        push_all(&mut self.assertions, &pre);
                    },
                    Invocation::Callee => {
                        push_all(&mut self.assumptions, &pre);
                        self.assertions.push(guard);
                    },
                }
                proof {
                    let assumed = self.assumptions@.subrange(a0.len() as int, self.assumptions@.len() as int);
                    let asserted = self.assertions@.subrange(s0.len() as int, self.assertions@.len() as int);
                    match invocation {
                        Invocation::Caller => {
                            assert(asserted =~= pre@);
                        },
                        Invocation::Callee => {
                            assert(assumed.drop_first() =~= pre@);
                        },
                    }
                    assert(partial_effect(t, *spec, inputs@, invocation, p, matches@, provides@, assumed, asserted));
                }
            },
            Domain::Total => {
                let ghost a0 = self.assumptions@;
                let ghost s0 = self.assertions@;
                match invocation {
                    Invocation::Caller => {
                        push_all(&mut self.assertions, &pre);
                        push_all(&mut self.assumptions, &provides);
                    },
                    Invocation::Callee => {
                        push_all(&mut self.assumptions, &pre);
                        push_all(&mut self.assertions, &provides);
                    },
                }
                proof {
                    let assumed = self.assumptions@.subrange(a0.len() as int, self.assumptions@.len() as int);
                    let asserted = self.assertions@.subrange(s0.len() as int, self.assertions@.len() as int);
                    match invocation {
                        Invocation::Caller => {
                            assert(asserted =~= pre@);
                            assert(assumed =~= provides@);
                        },
                        Invocation::Callee => {
                            assert(assumed =~= pre@);
                            assert(asserted =~= provides@);
                        },
                    }
                }
            },
        }
        let mut recorded: Vec<ExprId> = Vec::new();
        push_all(&mut recorded, args);
        proof {
            assert(recorded@ =~= args@);
        }
        self.calls.push(crate::conditions::Call { term, args: recorded, ret });
        Ok(())
    }
}


/// Assumption `a` states the default of a state variable, `d` lowered from
/// the default spec, guarded by `!(c1 || c2 || ...)` when some calls declared
/// modification conditions `conds` for it.
pub open spec fn default_assumption(t: Seq<Expr>, a: ExprId, d: SpecExpr, s: Seq<(String, Symbolic)>, conds: Seq<ExprId>) -> bool {
    if conds.len() == 0 {
        lowers(t, a, d, s)
    } else {
        &&& 0 <= a.0 < t.len()
        &&& match t[a.0 as int] {
            Expr::Binary(BinaryOp::Imp, nm, x) => {
                &&& 0 <= nm.0 < t.len()
                &&& lowers(t, x, d, s)
                &&& match t[nm.0 as int] {
                    Expr::Unary(crate::expr::UnaryOp::Not, m) => folds(t, m, conds, BinaryOp::Or, false),
                    _ => false,
                }
            },
            _ => false,
        }
    }
}

impl Conditions {
    /// Assume the default of state variable `name`, whose value is `value`:
    /// the default spec holds unless one of the modification conditions
    /// `conds` that calls declared for it holds.
    pub fn state_default(&mut self, name: &String, value: ExprId, default: &SpecExpr, conds: &Vec<ExprId>) -> (r: Result<(), BuildError>)
        requires
            old(self).wf(),
            value.0 < old(self).exprs@.len(),
            ids_below(conds@, old(self).exprs@.len() as int),
            old(self).exprs@.len() + spec_size(*default) + conds@.len() + 4 < usize::MAX,
        ensures
            final(self).wf(),
            final(self).grows_from(old(self)),
            final(self).assertions == old(self).assertions,
            final(self).calls == old(self).calls,
            r is Ok <==> bound(*default, seq![(*name, Symbolic::Scalar(value))]),
            r is Err ==> first_error(*default, seq![(*name, Symbolic::Scalar(value))]) == Some(r->Err_0)
                && final(self).assumptions == old(self).assumptions,
            r is Ok ==> {
                &&& final(self).assumptions@.len() == old(self).assumptions@.len() + 1
                &&& default_assumption(final(self).exprs@, final(self).assumptions@.last(), *default, seq![(*name, Symbolic::Scalar(value))], conds@)
            },
    {
        let mut scope: Scope = Vec::new();
        scope.push((name.clone(), Symbolic::Scalar(value)));
        proof {
            assert(scope@ =~= seq![(*name, Symbolic::Scalar(value))]);
        }
        let ghost t0 = self.exprs@;
        let d = self.spec_expr(default, &scope)?;
        let ghost t1 = self.exprs@;
        let holds = if conds.len() == 0 {
            d
        } else {
            let modified = self.any(conds);
            let ghost t2 = self.exprs@;
            let nm = Expr::Unary(crate::expr::UnaryOp::Not, modified);
            let not_modified = self.dedup_expr(nm);
            let ghost t3 = self.exprs@;
            let im = Expr::Binary(BinaryOp::Imp, not_modified, d);
            let guarded = self.dedup_expr(im);
            proof {
                lemma_interned(t2, nm);
                lemma_interned(t3, im);
                lemma_folds_extends(t2, self.exprs@, modified, conds@, BinaryOp::Or, false);
                lemma_lowers_extends(t1, self.exprs@, d, *default, scope@);
            }
            guarded
        };
        self.assumptions.push(holds);
        Ok(())
    }
}


/// Expression `e` is `0 < x`.
pub open spec fn is_positive_test(t: Seq<Expr>, e: ExprId, x: ExprId) -> bool {
    &&& 0 <= e.0 < t.len()
    &&& match t[e.0 as int] {
        Expr::Binary(BinaryOp::Lt, c, y) => y == x && 0 <= c.0 < t.len() && t[c.0 as int] == Expr::Const(crate::types::Const::Int(0)),
        _ => false,
    }
}

/// Expression `e` is `r == x - 1`.
pub open spec fn is_decrement(t: Seq<Expr>, e: ExprId, r: ExprId, x: ExprId) -> bool {
    &&& 0 <= e.0 < t.len()
    &&& match t[e.0 as int] {
        Expr::Binary(BinaryOp::Eq, r1, d) => r1 == r && 0 <= d.0 < t.len() && match t[d.0 as int] {
            Expr::Binary(BinaryOp::Sub, x1, c) => x1 == x && 0 <= c.0 < t.len()
                && t[c.0 as int] == Expr::Const(crate::types::Const::Int(1)),
            _ => false,
        },
        _ => false,
    }
}

/// A caller of a total constructor with contract `requires x > 0`,
/// `provides result == x - 1` asserts exactly `0 < X` and assumes exactly
/// `R == X - 1`, for its argument `X` and result `R`.
pub proof fn lemma_caller_of_decrement(
    t: Seq<Expr>,
    spec: TermSpec,
    args: Seq<ExprId>,
    ret: ExprId,
    assumed: Seq<ExprId>,
    asserted: Seq<ExprId>,
)
    requires
        spec.args@.len() == 1,
        args.len() == 1,
        spec.ret@ != spec.args@[0]@,
        spec.requires@ == seq![SpecExpr::Gt(
            Box::new(SpecExpr::Var(spec.args@[0])),
            Box::new(SpecExpr::Const(crate::types::Const::Int(0))),
        )],
        spec.provides@ == seq![SpecExpr::Binary(
            BinaryOp::Eq,
            Box::new(SpecExpr::Var(spec.ret)),
            Box::new(SpecExpr::Binary(
                BinaryOp::Sub,
                Box::new(SpecExpr::Var(spec.args@[0])),
                Box::new(SpecExpr::Const(crate::types::Const::Int(1))),
            )),
        )],
        call_effect(
            t,
            spec,
            call_inputs(seq![], spec, TermKind::Constructor, args, ret),
            call_scope(seq![], spec, TermKind::Constructor, args, ret),
            Invocation::Caller,
            Domain::Total,
            assumed,
            asserted,
        ),
    ensures
        asserted.len() == 1,
        is_positive_test(t, asserted[0], args[0]),
        assumed.len() == 1,
        is_decrement(t, assumed[0], ret, args[0]),
{
    let x = spec.args@[0];
    let ins = call_inputs(seq![], spec, TermKind::Constructor, args, ret);
    let full = call_scope(seq![], spec, TermKind::Constructor, args, ret);
    assert(ins =~= seq![(x, Symbolic::Scalar(args[0]))]);
    assert(full =~= seq![(x, Symbolic::Scalar(args[0])), (spec.ret, Symbolic::Scalar(ret))]);
    assert(binds(ins, x@, 0));
    assert(scope_lookup(ins, x@) == Some(Symbolic::Scalar(args[0]))) by {
        let j = choose|j: int| binds(ins, x@, j);
        assert(j == 0);
    }
    assert(binds(full, x@, 0));
    assert(scope_lookup(full, x@) == Some(Symbolic::Scalar(args[0]))) by {
        let j = choose|j: int| binds(full, x@, j);
        if j != 0 {
            assert(full[0].0@ != x@);
        }
    }
    assert(binds(full, spec.ret@, 1));
    assert(scope_lookup(full, spec.ret@) == Some(Symbolic::Scalar(ret))) by {
        let j = choose|j: int| binds(full, spec.ret@, j);
        if j == 0 {
            assert(full[0].0@ == x@);
        }
    }
    assert(lowers(t, asserted[0], spec.requires@[0], ins));
    assert(lowers(t, assumed[0], spec.provides@[0], full));
    let zero = SpecExpr::Const(crate::types::Const::Int(0));
    let one = SpecExpr::Const(crate::types::Const::Int(1));
    let vx = SpecExpr::Var(x);
    let vr = SpecExpr::Var(spec.ret);
    match t[asserted[0].0 as int] {
        Expr::Binary(_, a, b) => {
            assert(lowers(t, a, zero, ins));
            assert(lowers(t, b, vx, ins));
        },
        _ => {},
    }
    match t[assumed[0].0 as int] {
        Expr::Binary(_, a, d) => {
            assert(lowers(t, a, vr, full));
            let sub = SpecExpr::Binary(BinaryOp::Sub, Box::new(vx), Box::new(one));
            assert(lowers(t, d, sub, full));
            match t[d.0 as int] {
                Expr::Binary(_, y, c) => {
                    assert(lowers(t, y, vx, full));
                    assert(lowers(t, c, one, full));
                },
                _ => {},
            }
        },
        _ => {},
    }
}


/// What a term's `modifies` clauses came to: for clause `k`, `mods[k]` names
/// its state and the condition under which it writes it, a fresh boolean
/// variable bound in `cs` to the clause's condition name, or `true` for an
/// unconditional write.
pub open spec fn modifications_bound(t: Seq<Expr>, vars: Seq<crate::conditions::Variable>, ms: Seq<Modifies>, cs: Seq<(String, Symbolic)>, mods: Seq<(String, ExprId)>) -> bool {
    &&& mods.len() == ms.len()
    &&& forall|k: int| 0 <= k < ms.len() ==> {
        &&& (#[trigger] mods[k]).0@ == ms[k].state@
        &&& 0 <= mods[k].1.0 < t.len()
        &&& match ms[k].cond {
            Some(n) => {
                &&& t[mods[k].1.0 as int] matches Expr::Variable(v) && v.0 < vars.len() && vars[v.0 as int].ty == crate::types::Type::Bool
                &&& exists|j: int| 0 <= j < cs.len() && #[trigger] cs[j] == (n, Symbolic::Scalar(mods[k].1))
            },
            None => t[mods[k].1.0 as int] == Expr::Const(crate::types::Const::Bool(true)),
        }
    }
    &&& forall|j: int| 0 <= j < cs.len() ==> exists|k: int| 0 <= k < ms.len() && ms[k].cond == Some((#[trigger] cs[j]).0)
        && cs[j].1 == Symbolic::Scalar(mods[k].1)
}

impl Conditions {
    /// Bind the modification conditions of a term's `modifies` clauses: a
    /// fresh boolean variable for each conditional write, `true` for each
    /// unconditional one. Returns the scope that binds the condition names,
    /// to be passed to `call`, and the state written by each clause with its
    /// condition.
    pub fn modification_conditions(&mut self, spec: &TermSpec) -> (r: (Scope, Vec<(String, ExprId)>))
        requires
            old(self).wf(),
            old(self).exprs@.len() + spec.modifies@.len() + 1 < usize::MAX,
            old(self).variables@.len() + spec.modifies@.len() < usize::MAX,
        ensures
            final(self).wf(),
            final(self).grows_from(old(self)),
            final(self).assumptions == old(self).assumptions,
            final(self).assertions == old(self).assertions,
            final(self).calls == old(self).calls,
            final(self).exprs@.len() <= old(self).exprs@.len() + spec.modifies@.len(),
            all_scalar(r.0@),
            scope_below(r.0@, final(self).exprs@.len() as int),
            modifications_bound(final(self).exprs@, final(self).variables@, spec.modifies@, r.0@, r.1@),
    {
        let mut cs: Scope = Vec::new();
        let mut mods: Vec<(String, ExprId)> = Vec::new();
        let mut k: usize = 0;
        while k < spec.modifies.len()
            invariant
                k <= spec.modifies@.len(),
                self.wf(),
                self.grows_from(old(self)),
                self.assumptions == old(self).assumptions,
                self.assertions == old(self).assertions,
                self.calls == old(self).calls,
                self.exprs@.len() <= old(self).exprs@.len() + k,
                self.variables@.len() <= old(self).variables@.len() + k,
                old(self).exprs@.len() + spec.modifies@.len() + 1 < usize::MAX,
                old(self).variables@.len() + spec.modifies@.len() < usize::MAX,
                all_scalar(cs@),
                scope_below(cs@, self.exprs@.len() as int),
                modifications_bound(self.exprs@, self.variables@, spec.modifies@.take(k as int), cs@, mods@),
            decreases spec.modifies@.len() - k,
        {
            let ghost t0 = self.exprs@;
            let ghost v0 = self.variables@;
            let ghost cs0 = cs@;
            let ghost mods0 = mods@;
            let m = &spec.modifies[k];
            match &m.cond {
                Some(n) => {
                    let v = self.alloc_variable(crate::types::Type::Bool, m.state.clone());
                    cs.push((n.clone(), Symbolic::Scalar(v)));
                    mods.push((m.state.clone(), v));
                },
                None => {
                    let t = self.boolean(true);
                    proof {
                        crate::conditions::lemma_interned(t0, Expr::Const(crate::types::Const::Bool(true)));
                    }
                    mods.push((m.state.clone(), t));
                },
            }
            proof {
                let ms = spec.modifies@.take(k as int + 1);
                assert(ms =~= spec.modifies@.take(k as int).push(spec.modifies@[k as int]));
                let t = self.exprs@;
                let vs = self.variables@;
                assert forall|i: int| 0 <= i < k implies #[trigger] ms[i] == spec.modifies@.take(k as int)[i] by {}
                assert forall|i: int| 0 <= i < ms.len() implies {
                    &&& (#[trigger] mods@[i]).0@ == ms[i].state@
                    &&& 0 <= mods@[i].1.0 < t.len()
                    &&& match ms[i].cond {
                        Some(n) => {
                            &&& t[mods@[i].1.0 as int] matches Expr::Variable(v) && v.0 < vs.len() && vs[v.0 as int].ty == crate::types::Type::Bool
                            &&& exists|j: int| 0 <= j < cs@.len() && #[trigger] cs@[j] == (n, Symbolic::Scalar(mods@[i].1))
                        },
                        None => t[mods@[i].1.0 as int] == Expr::Const(crate::types::Const::Bool(true)),
                    }
                } by {
                    if i < k {
                        assert(mods@[i] == mods0[i]);
                        assert(t[mods0[i].1.0 as int] == t0[mods0[i].1.0 as int]);
                        match ms[i].cond {
                            Some(n) => {
                                let j = choose|j: int| 0 <= j < cs0.len() && #[trigger] cs0[j] == (n, Symbolic::Scalar(mods0[i].1));
                                assert(cs@[j] == cs0[j]);
                                match t0[mods0[i].1.0 as int] {
                                    Expr::Variable(v) => {
                                        assert(vs[v.0 as int] == v0[v.0 as int]);
                                    },
                                    _ => {},
                                }
                            },
                            None => {},
                        }
                    } else {
                        match ms[i].cond {
                            Some(n) => {
                                assert(cs@[cs@.len() - 1] == (n, Symbolic::Scalar(mods@[i].1)));
                            },
                            None => {},
                        }
                    }
                }
                assert forall|j: int| 0 <= j < cs@.len() implies exists|i: int| 0 <= i < ms.len() && ms[i].cond == Some((#[trigger] cs@[j]).0)
                    && cs@[j].1 == Symbolic::Scalar(mods@[i].1) by {
                    if j < cs0.len() {
                        assert(cs@[j] == cs0[j]);
                        let i = choose|i: int| 0 <= i < spec.modifies@.take(k as int).len() && spec.modifies@.take(k as int)[i].cond == Some((#[trigger] cs0[j]).0)
                            && cs0[j].1 == Symbolic::Scalar(mods0[i].1);
                        assert(mods@[i] == mods0[i]);
                        assert(ms[i] == spec.modifies@.take(k as int)[i]);
                    } else {
                        assert(ms[k as int] == spec.modifies@[k as int]);
                    }
                }
                assert forall|j: int| 0 <= j < cs@.len() implies (#[trigger] cs@[j]).1 is Scalar by {
                    if j < cs0.len() {
                        assert(cs@[j] == cs0[j]);
                    }
                }
                assert forall|j: int| 0 <= j < cs@.len() implies match (#[trigger] cs@[j]).1 {
                    Symbolic::Scalar(x) => x.0 < t.len(),
                    _ => true,
                } by {
                    if j < cs0.len() {
                        assert(cs@[j] == cs0[j]);
                    }
                }
            }
            k = k + 1;
        }
        proof {
            assert(spec.modifies@.take(spec.modifies@.len() as int) =~= spec.modifies@);
        }
        (cs, mods)
    }
}

/// The conditions under which `mods` write state `s`, in order.
pub open spec fn conds_of(mods: Seq<(String, ExprId)>, s: Seq<char>) -> Seq<ExprId>
    decreases mods.len(),
{
    if mods.len() == 0 {
        seq![]
    } else if mods.last().0@ == s {
        conds_of(mods.drop_last(), s).push(mods.last().1)
    } else {
        conds_of(mods.drop_last(), s)
    }
}

/// The conditions under which `mods` write state `s`: those `state_default`
/// guards the default with.
pub fn conds_for(mods: &Vec<(String, ExprId)>, state: &String) -> (r: Vec<ExprId>)
    ensures
        r@ == conds_of(mods@, state@),
{
    let mut r: Vec<ExprId> = Vec::new();
    let mut i: usize = 0;
    while i < mods.len()
        invariant
            i <= mods@.len(),
            r@ == conds_of(mods@.take(i as int), state@),
        decreases mods@.len() - i,
    {
        proof {
            let tk = mods@.take(i as int + 1);
            assert(tk.drop_last() =~= mods@.take(i as int));
            assert(tk.last() == mods@[i as int]);
        }
        if mods[i].0 == *state {
            r.push(mods[i].1);
        }
        i = i + 1;
    }
    proof {
        assert(mods@.take(mods@.len() as int) =~= mods@);
    }
    r
}

} // verus!
