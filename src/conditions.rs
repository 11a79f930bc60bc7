//! Verification conditions of one expansion: an interning table of scalar
//! expressions, the assumptions that must hold and the assertions to prove.
use vstd::prelude::*;
use crate::expr::{BinaryOp, Expr, ExprId, UnaryOp, VariableId, expr_pure, expr_sources};
use crate::symbolic::{Symbolic, SymbolicEnum, SymbolicVariant, variants_numbered};
use crate::types::{Const, Type};

verus! {

/// A free variable of the verification conditions.
#[derive(Debug)]
pub struct Variable {
    pub ty: Type,
    pub name: String,
}

impl Variable {
    /// Name of a component of a compound value: `prefix_field`.
    pub fn component_name(prefix: &str, field: &str) -> (r: String)
        ensures
            r@ == prefix@ + seq!['_'] + field@,
    {
        let mut name = <String as vstd::string::StringExecFns>::from_str(prefix);
        proof {
            reveal_strlit("_");
        }
        <String as vstd::string::StringExecFns>::append(&mut name, "_");
        <String as vstd::string::StringExecFns>::append(&mut name, field);
        name
    }
}

/// Every id of `s` names an expression below `n`.
pub open spec fn ids_below(s: Seq<ExprId>, n: int) -> bool {
    forall|k: int| 0 <= k < s.len() ==> (#[trigger] s[k]).0 < n
}

/// An expression may stand at index `i` of a table with `nvars` variables:
/// its operands come before it and its variable exists.
pub open spec fn expr_wf_at(e: Expr, i: int, nvars: int) -> bool {
    &&& ids_below(expr_sources(e), i)
    &&& (e is Variable ==> e->Variable_0.0 < nvars)
}

/// No pure expression occurs twice in the table.
pub open spec fn pure_unique(t: Seq<Expr>) -> bool {
    forall|i: int, j: int|
        0 <= i < t.len() && 0 <= j < t.len() && i != j && #[trigger] t[i] == #[trigger] t[j]
            ==> !expr_pure(t[i])
}

/// Interning of `e` into table `t`: the new table and the id of `e` in it.
/// A pure expression already present keeps its id; any other is appended.
pub open spec fn interned(t: Seq<Expr>, e: Expr) -> (Seq<Expr>, int) {
    if expr_pure(e) && exists|i: int| 0 <= i < t.len() && t[i] == e {
        (t, choose|i: int| 0 <= i < t.len() && t[i] == e)
    } else {
        (t.push(e), t.len() as int)
    }
}

/// `t2` extends `t`.
pub open spec fn extends<A>(t: Seq<A>, t2: Seq<A>) -> bool {
    &&& t.len() <= t2.len()
    &&& forall|i: int| 0 <= i < t.len() ==> #[trigger] t2[i] == t[i]
}

/// Expression `id` of table `t` folds `xs` with `op` from the left, and is the
/// constant `unit` when `xs` is empty: `((xs[0] op xs[1]) op xs[2]) ...`.
pub open spec fn folds(t: Seq<Expr>, id: ExprId, xs: Seq<ExprId>, op: BinaryOp, unit: bool) -> bool
    decreases xs.len(),
{
    if xs.len() == 0 {
        0 <= id.0 < t.len() && t[id.0 as int] == Expr::Const(Const::Bool(unit))
    } else if xs.len() == 1 {
        id == xs[0]
    } else {
        &&& 0 <= id.0 < t.len()
        &&& match t[id.0 as int] {
            Expr::Binary(o, a, b) => o == op && b == xs.last() && folds(t, a, xs.drop_last(), op, unit),
            _ => false,
        }
    }
}

/// A value that a model gives an expression.
pub enum Val {
    Bool(bool),
    Int(int),
    Other,
}

/// What an expression's operator says of its value `v` under model `m`. Only
/// the boolean and integer operators the builder relies on are constrained.
pub open spec fn agrees(e: Expr, m: Seq<Val>, v: Val) -> bool {
    match e {
        Expr::Const(Const::Bool(b)) => v == Val::Bool(b),
        Expr::Const(Const::Int(n)) => v == Val::Int(n as int),
        Expr::Unary(UnaryOp::Not, x) => v == Val::Bool(m[x.0 as int] != Val::Bool(true)),
        Expr::Binary(BinaryOp::And, x, y) => v == Val::Bool(
            m[x.0 as int] == Val::Bool(true) && m[y.0 as int] == Val::Bool(true),
        ),
        Expr::Binary(BinaryOp::Or, x, y) => v == Val::Bool(
            m[x.0 as int] == Val::Bool(true) || m[y.0 as int] == Val::Bool(true),
        ),
        Expr::Binary(BinaryOp::Imp, x, y) => v == Val::Bool(
            m[x.0 as int] == Val::Bool(true) ==> m[y.0 as int] == Val::Bool(true),
        ),
        Expr::Binary(BinaryOp::Eq, x, y) => v == Val::Bool(m[x.0 as int] == m[y.0 as int]),
        Expr::Binary(BinaryOp::Lt, x, y) => v == Val::Bool(
            m[x.0 as int] is Int && m[y.0 as int] is Int && m[x.0 as int]->Int_0 < m[y.0 as int]->Int_0,
        ),
        Expr::Binary(BinaryOp::Lte, x, y) => v == Val::Bool(
            m[x.0 as int] is Int && m[y.0 as int] is Int && m[x.0 as int]->Int_0 <= m[y.0 as int]->Int_0,
        ),
        Expr::Conditional(c, x, y) => v == (if m[c.0 as int] == Val::Bool(true) {
            m[x.0 as int]
        } else {
            m[y.0 as int]
        }),
        _ => true,
    }
}

/// Model `m` gives every expression of `t` a value its operator allows.
pub open spec fn consistent(t: Seq<Expr>, m: Seq<Val>) -> bool {
    &&& m.len() == t.len()
    &&& forall|i: int| 0 <= i < t.len() ==> agrees(#[trigger] t[i], m, m[i])
}

/// Model `m` is consistent with `t` and makes every assumption true.
pub open spec fn satisfies(t: Seq<Expr>, assumptions: Seq<ExprId>, m: Seq<Val>) -> bool {
    &&& consistent(t, m)
    &&& forall|k: int| 0 <= k < assumptions.len() ==> m[(#[trigger] assumptions[k]).0 as int] == Val::Bool(true)
}

/// Assumption `a` states `0 <= d && d < n`.
pub open spec fn range_assumption(t: Seq<Expr>, a: ExprId, d: ExprId, n: int) -> bool {
    &&& 0 <= a.0 < t.len()
    &&& match t[a.0 as int] {
        Expr::Binary(BinaryOp::And, p, q) => {
            &&& 0 <= p.0 < t.len()
            &&& 0 <= q.0 < t.len()
            &&& match (t[p.0 as int], t[q.0 as int]) {
                (Expr::Binary(BinaryOp::Lte, z, x), Expr::Binary(BinaryOp::Lt, y, w)) => {
                    &&& x == d
                    &&& y == d
                    &&& 0 <= z.0 < t.len()
                    &&& 0 <= w.0 < t.len()
                    &&& t[z.0 as int] == Expr::Const(Const::Int(0))
                    &&& match t[w.0 as int] {
                        Expr::Const(Const::Int(k)) => k as int == n,
                        _ => false,
                    }
                },
                _ => false,
            }
        },
        _ => false,
    }
}

/// Some assumption bounds discriminant `d` to `[0, n)`.
pub open spec fn discriminant_assumed(t: Seq<Expr>, assumptions: Seq<ExprId>, d: ExprId, n: int) -> bool {
    exists|k: int| 0 <= k < assumptions.len() && range_assumption(t, #[trigger] assumptions[k], d, n)
}

/// Some assumption states that flag `some` equals the disjunction of `matches`.
pub open spec fn domain_assumed(t: Seq<Expr>, assumptions: Seq<ExprId>, some: ExprId, matches: Seq<ExprId>) -> bool {
    exists|k: int|
        0 <= k < assumptions.len() && #[trigger] domain_assumption(t, assumptions[k], some, matches)
}

/// Assumption `a` states `some == (matches[0] || matches[1] || ...)`.
pub open spec fn domain_assumption(t: Seq<Expr>, a: ExprId, some: ExprId, matches: Seq<ExprId>) -> bool {
    &&& 0 <= a.0 < t.len()
    &&& match t[a.0 as int] {
        Expr::Binary(BinaryOp::Eq, x, y) => x == some && folds(t, y, matches, BinaryOp::Or, false),
        _ => false,
    }
}

/// The table and id that interning gives are well formed, and the table
/// extends the old one.
pub proof fn lemma_interned(t: Seq<Expr>, e: Expr)
    ensures
        extends(t, interned(t, e).0),
        0 <= interned(t, e).1 < interned(t, e).0.len(),
        interned(t, e).0[interned(t, e).1] == e,
        interned(t, e).0.len() <= t.len() + 1,
{
    if expr_pure(e) && exists|i: int| 0 <= i < t.len() && t[i] == e {
    } else {
        assert(t.push(e)[t.len() as int] == e);
    }
}

/// Interning the same expression twice in a row gives one id when it is pure
/// and two distinct ids when it is not; the second interning of a pure
/// expression leaves the table as it was.
pub proof fn lemma_dedup_idempotent(t: Seq<Expr>, e: Expr)
    requires
        pure_unique(t),
    ensures
        expr_pure(e) ==> interned(interned(t, e).0, e) == interned(t, e),
        !expr_pure(e) ==> interned(interned(t, e).0, e).1 != interned(t, e).1,
{
    lemma_interned(t, e);
    let (t1, i1) = interned(t, e);
    if expr_pure(e) {
        assert(0 <= i1 < t1.len() && t1[i1] == e);
        let j = choose|j: int| 0 <= j < t1.len() && t1[j] == e;
        if exists|i: int| 0 <= i < t.len() && t[i] == e {
            assert(t1 == t);
            assert(t[j] == t[i1]);
        } else {
            assert(t1 == t.push(e));
            if j != i1 {
                assert(t1[j] == t[j]);
            }
        }
    }
}

/// A fold stays a fold in any extension of its table.
pub proof fn lemma_folds_extends(t: Seq<Expr>, t2: Seq<Expr>, id: ExprId, xs: Seq<ExprId>, op: BinaryOp, unit: bool)
    requires
        folds(t, id, xs, op, unit),
        extends(t, t2),
    ensures
        folds(t2, id, xs, op, unit),
    decreases xs.len(),
{
    if xs.len() >= 2 {
        match t[id.0 as int] {
            Expr::Binary(o, a, b) => {
                lemma_folds_extends(t, t2, a, xs.drop_last(), op, unit);
            },
            _ => {},
        }
    }
}

/// Under a consistent model, a disjunction fold is true exactly when one of
/// its operands is.
pub proof fn lemma_or_fold_value(t: Seq<Expr>, m: Seq<Val>, id: ExprId, xs: Seq<ExprId>)
    requires
        consistent(t, m),
        folds(t, id, xs, BinaryOp::Or, false),
        ids_below(xs, t.len() as int),
    ensures
        m[id.0 as int] == Val::Bool(true) <==> exists|j: int| 0 <= j < xs.len() && m[xs[j].0 as int] == Val::Bool(true),
    decreases xs.len(),
{
    if xs.len() == 0 {
        assert(agrees(t[id.0 as int], m, m[id.0 as int]));
    } else if xs.len() == 1 {
        assert(xs[0] == id);
    } else {
        match t[id.0 as int] {
            Expr::Binary(o, a, b) => {
                let ys = xs.drop_last();
                assert(ids_below(ys, t.len() as int)) by {
                    assert forall|k: int| 0 <= k < ys.len() implies (#[trigger] ys[k]).0 < t.len() by {
                        assert(ys[k] == xs[k]);
                    }
                }
                lemma_or_fold_value(t, m, a, ys);
                assert(agrees(t[id.0 as int], m, m[id.0 as int]));
                if m[id.0 as int] == Val::Bool(true) {
                    if m[a.0 as int] == Val::Bool(true) {
                        let j = choose|j: int| 0 <= j < ys.len() && m[ys[j].0 as int] == Val::Bool(true);
                        assert(xs[j] == ys[j]);
                    } else {
                        assert(xs[xs.len() - 1] == b);
                    }
                } else {
                    assert forall|j: int| 0 <= j < xs.len() implies m[xs[j].0 as int] != Val::Bool(true) by {
                        if j < xs.len() - 1 {
                            assert(xs[j] == ys[j]);
                        }
                    }
                }
            },
            _ => {},
        }
    }
}

/// Assumptions stay made as the conditions grow.
pub proof fn lemma_assumed_persists(
    t: Seq<Expr>,
    t2: Seq<Expr>,
    assumptions: Seq<ExprId>,
    assumptions2: Seq<ExprId>,
    d: ExprId,
    n: int,
    some: ExprId,
    matches: Seq<ExprId>,
)
    requires
        extends(t, t2),
        extends(assumptions, assumptions2),
    ensures
        discriminant_assumed(t, assumptions, d, n) ==> discriminant_assumed(t2, assumptions2, d, n),
        domain_assumed(t, assumptions, some, matches) ==> domain_assumed(t2, assumptions2, some, matches),
{
    if discriminant_assumed(t, assumptions, d, n) {
        let k = choose|k: int| 0 <= k < assumptions.len() && range_assumption(t, #[trigger] assumptions[k], d, n);
        assert(assumptions2[k] == assumptions[k]);
        let a = assumptions[k];
        match t[a.0 as int] {
            Expr::Binary(BinaryOp::And, p, q) => {
                assert(t2[a.0 as int] == t[a.0 as int]);
                assert(t2[p.0 as int] == t[p.0 as int]);
                assert(t2[q.0 as int] == t[q.0 as int]);
                match (t[p.0 as int], t[q.0 as int]) {
                    (Expr::Binary(BinaryOp::Lte, z, x), Expr::Binary(BinaryOp::Lt, y, w)) => {
                        assert(t2[z.0 as int] == t[z.0 as int]);
                        assert(t2[w.0 as int] == t[w.0 as int]);
                    },
                    _ => {},
                }
            },
            _ => {},
        }
        assert(range_assumption(t2, assumptions2[k], d, n));
    }
    if domain_assumed(t, assumptions, some, matches) {
        let k = choose|k: int| 0 <= k < assumptions.len() && #[trigger] domain_assumption(t, assumptions[k], some, matches);
        assert(assumptions2[k] == assumptions[k]);
        let a = assumptions[k];
        assert(t2[a.0 as int] == t[a.0 as int]);
        match t[a.0 as int] {
            Expr::Binary(BinaryOp::Eq, x, y) => {
                lemma_folds_extends(t, t2, y, matches, BinaryOp::Or, false);
            },
            _ => {},
        }
        assert(domain_assumption(t2, assumptions2[k], some, matches));
    }
}

/// Every model of conditions that assume the range of an enum discriminant
/// gives the discriminant an integer in `[0, n)`.
pub proof fn lemma_discriminant_in_range(t: Seq<Expr>, assumptions: Seq<ExprId>, d: ExprId, n: int, m: Seq<Val>)
    requires
        discriminant_assumed(t, assumptions, d, n),
        satisfies(t, assumptions, m),
    ensures
        m[d.0 as int] is Int,
        0 <= m[d.0 as int]->Int_0 < n,
{
    let k = choose|k: int| 0 <= k < assumptions.len() && range_assumption(t, #[trigger] assumptions[k], d, n);
    let a = assumptions[k];
    assert(m[a.0 as int] == Val::Bool(true));
    assert(agrees(t[a.0 as int], m, m[a.0 as int]));
    match t[a.0 as int] {
        Expr::Binary(BinaryOp::And, p, q) => {
            assert(agrees(t[p.0 as int], m, m[p.0 as int]));
            assert(agrees(t[q.0 as int], m, m[q.0 as int]));
            match (t[p.0 as int], t[q.0 as int]) {
                (Expr::Binary(BinaryOp::Lte, z, x), Expr::Binary(BinaryOp::Lt, y, w)) => {
                    assert(agrees(t[z.0 as int], m, m[z.0 as int]));
                    assert(agrees(t[w.0 as int], m, m[w.0 as int]));
                },
                _ => {},
            }
        },
        _ => {},
    }
}

/// In every model of conditions that assume the domain of a partial call,
/// the presence flag is true exactly when one of the `matches` clauses is.
pub proof fn lemma_partial_domain(t: Seq<Expr>, assumptions: Seq<ExprId>, some: ExprId, matches: Seq<ExprId>, m: Seq<Val>)
    requires
        domain_assumed(t, assumptions, some, matches),
        satisfies(t, assumptions, m),
        ids_below(matches, t.len() as int),
        some.0 < t.len(),
    ensures
        m[some.0 as int] == Val::Bool(true) <==> exists|j: int| 0 <= j < matches.len() && m[matches[j].0 as int] == Val::Bool(true),
{
    let k = choose|k: int| 0 <= k < assumptions.len() && #[trigger] domain_assumption(t, assumptions[k], some, matches);
    let a = assumptions[k];
    assert(m[a.0 as int] == Val::Bool(true));
    assert(agrees(t[a.0 as int], m, m[a.0 as int]));
    match t[a.0 as int] {
        Expr::Binary(BinaryOp::Eq, x, y) => {
            lemma_or_fold_value(t, m, y, matches);
        },
        _ => {},
    }
}

/// One call of a term, kept to explain counterexamples.
#[derive(Debug)]
pub struct Call {
    pub term: usize,
    pub args: Vec<ExprId>,
    pub ret: ExprId,
}

/// Verification conditions for an expansion.
#[derive(Debug)]
pub struct Conditions {
    pub exprs: Vec<Expr>,
    pub assumptions: Vec<ExprId>,
    pub assertions: Vec<ExprId>,
    pub variables: Vec<Variable>,
    pub calls: Vec<Call>,
}

impl Conditions {
    /// Operands precede their expressions, every id is in range, and pure
    /// expressions are interned.
    pub open spec fn wf(&self) -> bool {
        &&& forall|i: int| 0 <= i < self.exprs@.len()
            ==> expr_wf_at(#[trigger] self.exprs@[i], i, self.variables@.len() as int)
        &&& ids_below(self.assumptions@, self.exprs@.len() as int)
        &&& ids_below(self.assertions@, self.exprs@.len() as int)
        &&& pure_unique(self.exprs@)
    }

    /// `self` is `old` with more expressions, assumptions and assertions.
    pub open spec fn grows_from(&self, old: &Conditions) -> bool {
        &&& extends(old.exprs@, self.exprs@)
        &&& extends(old.assumptions@, self.assumptions@)
        &&& extends(old.assertions@, self.assertions@)
        &&& old.variables@.len() <= self.variables@.len()
    }

    pub fn new() -> (r: Conditions)
        ensures
            r.wf(),
            r.exprs@.len() == 0,
            r.assumptions@.len() == 0,
            r.assertions@.len() == 0,
            r.variables@.len() == 0,
            r.calls@.len() == 0,
    {
        Conditions {
            exprs: Vec::new(),
            assumptions: Vec::new(),
            assertions: Vec::new(),
            variables: Vec::new(),
            calls: Vec::new(),
        }
    }

    /// Index of the first expression equal to `expr`.
    fn find(&self, expr: &Expr) -> (r: Option<usize>)
        ensures
            match r {
                Some(i) => i < self.exprs@.len() && self.exprs@[i as int] == *expr,
                None => forall|k: int| 0 <= k < self.exprs@.len() ==> self.exprs@[k] != *expr,
            },
    {
        let mut i: usize = 0;
        while i < self.exprs.len()
            invariant
                i <= self.exprs@.len(),
                forall|k: int| 0 <= k < i ==> self.exprs@[k] != *expr,
            decreases self.exprs@.len() - i,
        {
            if self.exprs[i] == *expr {
                return Some(i);
            }
            i = i + 1;
        }
        None
    }

    /// Add an expression, sharing the id of an equal pure one.
    pub fn dedup_expr(&mut self, expr: Expr) -> (r: ExprId)
        requires
            old(self).wf(),
            expr_wf_at(expr, old(self).exprs@.len() as int, old(self).variables@.len() as int),
            old(self).exprs@.len() < usize::MAX,
        ensures
            final(self).wf(),
            (final(self).exprs@, r.0 as int) == interned(old(self).exprs@, expr),
            final(self).assumptions == old(self).assumptions,
            final(self).assertions == old(self).assertions,
            final(self).calls == old(self).calls,
            final(self).variables == old(self).variables,
    {
        if expr.pure() {
            if let Some(i) = self.find(&expr) {
                proof {
                    let j = choose|j: int| 0 <= j < self.exprs@.len() && self.exprs@[j] == expr;
                    assert(self.exprs@[i as int] == self.exprs@[j]);
                }
                return ExprId(i);
            }
        }
        let id = ExprId(self.exprs.len());
        self.exprs.push(expr);
        proof {
            let t = self.exprs@;
            assert forall|i: int, j: int|
                0 <= i < t.len() && 0 <= j < t.len() && i != j && #[trigger] t[i] == #[trigger] t[j]
                implies !expr_pure(t[i]) by {
                if i < t.len() - 1 && j < t.len() - 1 {
                    assert(old(self).exprs@[i] == t[i]);
                    assert(old(self).exprs@[j] == t[j]);
                } else if i == t.len() - 1 {
                    assert(old(self).exprs@[j] == t[j]);
                } else {
                    assert(old(self).exprs@[i] == t[i]);
                }
            }
            assert forall|i: int| 0 <= i < t.len()
                implies expr_wf_at(#[trigger] t[i], i, self.variables@.len() as int) by {
                if i < t.len() - 1 {
                    assert(old(self).exprs@[i] == t[i]);
                }
            }
        }
        id
    }
}


/// Why verification conditions could not be built.
#[derive(Clone, Copy, Debug, PartialEq, Eq, Structural)]
pub enum BuildError {
    /// A call passes a number of arguments other than the spec declares.
    IncorrectArgumentCount,
    /// A spec with `matches` clauses describes a total function.
    MatchesOnTotalFunction,
    /// A spec expression names a variable that is not in scope.
    UndefinedVariable,
    /// A variadic operator is applied to no operands.
    EmptyVariadic,
    /// An enum's variants are not numbered `0, 1, ...` in order.
    UnexpectedDiscriminant,
    /// A value has another shape than its use needs (scalar, option, enum).
    ShapeMismatch,
    /// An enum has no variant of the given name.
    UnknownVariant,
    /// A literal has no value of the given type.
    BadConstant,
}

impl Conditions {
    /// Add a constant.
    pub fn constant(&mut self, c: Const) -> (r: ExprId)
        requires
            old(self).wf(),
            old(self).exprs@.len() < usize::MAX,
        ensures
            final(self).wf(),
            final(self).grows_from(old(self)),
            (final(self).exprs@, r.0 as int) == interned(old(self).exprs@, Expr::Const(c)),
            final(self).assumptions == old(self).assumptions,
            final(self).variables == old(self).variables,
            final(self).assertions == old(self).assertions,
            final(self).calls == old(self).calls,
    {
        let r = self.dedup_expr(Expr::Const(c));
        proof {
            lemma_interned(old(self).exprs@, Expr::Const(c));
        }
        r
    }

    /// Add a boolean constant.
    pub fn boolean(&mut self, value: bool) -> (r: ExprId)
        requires
            old(self).wf(),
            old(self).exprs@.len() < usize::MAX,
        ensures
            final(self).wf(),
            final(self).grows_from(old(self)),
            (final(self).exprs@, r.0 as int) == interned(old(self).exprs@, Expr::Const(Const::Bool(value))),
            final(self).assumptions == old(self).assumptions,
            final(self).variables == old(self).variables,
            final(self).assertions == old(self).assertions,
            final(self).calls == old(self).calls,
    {
        self.constant(Const::Bool(value))
    }

    /// Add the equality of two expressions.
    pub fn exprs_equal(&mut self, lhs: ExprId, rhs: ExprId) -> (r: ExprId)
        requires
            old(self).wf(),
            old(self).exprs@.len() < usize::MAX,
            lhs.0 < old(self).exprs@.len(),
            rhs.0 < old(self).exprs@.len(),
        ensures
            final(self).wf(),
            final(self).grows_from(old(self)),
            (final(self).exprs@, r.0 as int) == interned(old(self).exprs@, Expr::Binary(BinaryOp::Eq, lhs, rhs)),
            final(self).assumptions == old(self).assumptions,
            final(self).assertions == old(self).assertions,
            final(self).calls == old(self).calls,
    {
        let r = self.dedup_expr(Expr::Binary(BinaryOp::Eq, lhs, rhs));
        proof {
            lemma_interned(old(self).exprs@, Expr::Binary(BinaryOp::Eq, lhs, rhs));
        }
        r
    }

    /// Declare a fresh variable and add the expression that stands for it.
    pub fn alloc_variable(&mut self, ty: Type, name: String) -> (r: ExprId)
        requires
            old(self).wf(),
            old(self).exprs@.len() < usize::MAX,
            old(self).variables@.len() < usize::MAX,
        ensures
            final(self).wf(),
            final(self).grows_from(old(self)),
            r.0 == old(self).exprs@.len(),
            final(self).exprs@ == old(self).exprs@.push(Expr::Variable(VariableId(old(self).variables@.len() as usize))),
            final(self).variables@.len() == old(self).variables@.len() + 1,
            final(self).variables@.last().ty == ty,
            forall|i: int| 0 <= i < old(self).variables@.len() ==> final(self).variables@[i] == old(self).variables@[i],
            final(self).variables@.last().name@ == name@,
            final(self).assumptions == old(self).assumptions,
            final(self).assertions == old(self).assertions,
            final(self).calls == old(self).calls,
    {
        let v = VariableId(self.variables.len());
        self.variables.push(Variable { ty, name });
        proof {
            let t = self.exprs@;
            assert forall|i: int| 0 <= i < t.len()
                implies expr_wf_at(#[trigger] t[i], i, self.variables@.len() as int) by {
                assert(expr_wf_at(old(self).exprs@[i], i, old(self).variables@.len() as int));
            }
            assert forall|i: int| 0 <= i < t.len() implies t[i] != Expr::Variable(v) by {
                assert(expr_wf_at(old(self).exprs@[i], i, old(self).variables@.len() as int));
            }
        }
        self.dedup_expr(Expr::Variable(v))
    }

    /// Fold `xs` with `op`, or add the constant `unit` when `xs` is empty.
    fn fold(&mut self, xs: &Vec<ExprId>, op: BinaryOp, unit: bool) -> (r: ExprId)
        requires
            old(self).wf(),
            ids_below(xs@, old(self).exprs@.len() as int),
            old(self).exprs@.len() + xs@.len() < usize::MAX,
            op != BinaryOp::BVConvTo,
        ensures
            final(self).wf(),
            final(self).grows_from(old(self)),
            folds(final(self).exprs@, r, xs@, op, unit),
            r.0 < final(self).exprs@.len(),
            final(self).exprs@.len() <= old(self).exprs@.len() + xs@.len() + 1,
            final(self).assumptions == old(self).assumptions,
            final(self).assertions == old(self).assertions,
            final(self).calls == old(self).calls,
    {
        if xs.len() == 0 {
            let r = self.boolean(unit);
            proof {
                lemma_interned(old(self).exprs@, Expr::Const(Const::Bool(unit)));
            }
            return r;
        }
        let mut acc = xs[0];
        let mut i: usize = 1;
        proof {
            assert(xs@.take(1) =~= seq![xs@[0]]);
        }
        while i < xs.len()
            invariant
                1 <= i <= xs@.len(),
                self.wf(),
                self.grows_from(old(self)),
                self.assumptions == old(self).assumptions,
                self.assertions == old(self).assertions,
                self.calls == old(self).calls,
                self.exprs@.len() <= old(self).exprs@.len() + i,
                ids_below(xs@, old(self).exprs@.len() as int),
                old(self).exprs@.len() + xs@.len() < usize::MAX,
                op != BinaryOp::BVConvTo,
                acc.0 < self.exprs@.len(),
                folds(self.exprs@, acc, xs@.take(i as int), op, unit),
            decreases xs@.len() - i,
        {
            let ghost t = self.exprs@;
            let x = xs[i];
            let e = Expr::Binary(op, acc, x);
            let next = self.dedup_expr(e);
            proof {
                lemma_interned(t, e);
                lemma_folds_extends(t, self.exprs@, acc, xs@.take(i as int), op, unit);
                assert(xs@.take(i as int + 1).drop_last() =~= xs@.take(i as int));
            }
            acc = next;
            i = i + 1;
        }
        proof {
            assert(xs@.take(xs@.len() as int) =~= xs@);
        }
        acc
    }

    /// Conjunction of `xs`; `true` when empty.
    pub fn all(&mut self, xs: &Vec<ExprId>) -> (r: ExprId)
        requires
            old(self).wf(),
            ids_below(xs@, old(self).exprs@.len() as int),
            old(self).exprs@.len() + xs@.len() < usize::MAX,
        ensures
            final(self).wf(),
            final(self).grows_from(old(self)),
            folds(final(self).exprs@, r, xs@, BinaryOp::And, true),
            r.0 < final(self).exprs@.len(),
            final(self).exprs@.len() <= old(self).exprs@.len() + xs@.len() + 1,
            final(self).assumptions == old(self).assumptions,
            final(self).assertions == old(self).assertions,
            final(self).calls == old(self).calls,
    {
        self.fold(xs, BinaryOp::And, true)
    }

    /// Disjunction of `xs`; `false` when empty.
    pub fn any(&mut self, xs: &Vec<ExprId>) -> (r: ExprId)
        requires
            old(self).wf(),
            ids_below(xs@, old(self).exprs@.len() as int),
            old(self).exprs@.len() + xs@.len() < usize::MAX,
        ensures
            final(self).wf(),
            final(self).grows_from(old(self)),
            folds(final(self).exprs@, r, xs@, BinaryOp::Or, false),
            r.0 < final(self).exprs@.len(),
            final(self).exprs@.len() <= old(self).exprs@.len() + xs@.len() + 1,
            final(self).assumptions == old(self).assumptions,
            final(self).assertions == old(self).assertions,
            final(self).calls == old(self).calls,
    {
        self.fold(xs, BinaryOp::Or, false)
    }

    /// Build an enum value over `variants` with the given discriminant, and
    /// assume the discriminant lies in `[0, number of variants)`. Fails when
    /// the variants are not numbered in order.
    pub fn new_enum(&mut self, ty: usize, discriminant: ExprId, variants: Vec<SymbolicVariant>) -> (r: Result<Symbolic, BuildError>)
        requires
            old(self).wf(),
            discriminant.0 < old(self).exprs@.len(),
            old(self).exprs@.len() + 5 < usize::MAX,
            variants@.len() < 0x7fff_ffff_ffff_ffff_ffff_ffff_ffff_ffff,
        ensures
            final(self).wf(),
            final(self).grows_from(old(self)),
            final(self).assertions == old(self).assertions,
            final(self).calls == old(self).calls,
            variants_numbered(variants@) <==> r is Ok,
            r is Err ==> r->Err_0 == BuildError::UnexpectedDiscriminant && final(self).assumptions == old(self).assumptions
                && final(self).exprs == old(self).exprs && final(self).variables == old(self).variables,
            r is Ok ==> {
                &&& discriminant_assumed(final(self).exprs@, final(self).assumptions@, discriminant, variants@.len() as int)
                &&& final(self).assumptions@.len() == old(self).assumptions@.len() + 1
                &&& r->Ok_0 matches Symbolic::Enum(e) && e.ty == ty && e.discriminant == discriminant && e.variants@ == variants@
            },
    {
        let e = SymbolicEnum { ty, discriminant, variants };
        if !e.validate() {
            return Err(BuildError::UnexpectedDiscriminant);
        }
        let n = e.variants.len();
        let zero = self.constant(Const::Int(0));
        let num_variants = self.constant(Const::Int(n as i128));
        let ghost t0 = self.exprs@;
        let lower = self.dedup_expr(Expr::Binary(BinaryOp::Lte, zero, discriminant));
        let ghost t1 = self.exprs@;
        let upper = self.dedup_expr(Expr::Binary(BinaryOp::Lt, discriminant, num_variants));
        let ghost t2 = self.exprs@;
        let in_range = self.dedup_expr(Expr::Binary(BinaryOp::And, lower, upper));
        proof {
            lemma_interned(t0, Expr::Binary(BinaryOp::Lte, zero, discriminant));
            lemma_interned(t1, Expr::Binary(BinaryOp::Lt, discriminant, num_variants));
            lemma_interned(t2, Expr::Binary(BinaryOp::And, lower, upper));
        }
        self.assumptions.push(in_range);
        proof {
            let t = self.exprs@;
            let a = self.assumptions@;
            assert(a[a.len() - 1] == in_range);
            assert(range_assumption(t, a[a.len() - 1], discriminant, n as int));
        }
        Ok(Symbolic::Enum(e))
    }
}


/// Some id of `s` is `i`.
pub open spec fn mentions(s: Seq<ExprId>, i: int) -> bool {
    exists|k: int| 0 <= k < s.len() && (#[trigger] s[k]).0 == i
}

/// Marks `m` hold every root and every operand of a marked expression.
pub open spec fn reach_closed(t: Seq<Expr>, roots: Seq<ExprId>, m: Seq<bool>) -> bool {
    &&& m.len() == t.len()
    &&& forall|i: int| 0 <= i < t.len() && mentions(roots, i) ==> #[trigger] m[i]
    &&& forall|j: int, i: int|
        0 <= j < t.len() && 0 <= i < t.len() && #[trigger] m[j] && #[trigger] mentions(expr_sources(t[j]), i) ==> m[i]
}

/// Every mark of `m` is a root or an operand of a marked expression after
/// it: nothing is marked that the roots do not reach.
pub open spec fn reach_least(t: Seq<Expr>, roots: Seq<ExprId>, m: Seq<bool>) -> bool {
    forall|i: int| 0 <= i < m.len() && #[trigger] m[i] ==> mentions(roots, i) || exists|j: int|
        i < j < m.len() && m[j] && #[trigger] mentions(expr_sources(t[j]), i)
}

/// Mark every operand in `srcs`.
fn mark_all(marks: &mut Vec<bool>, srcs: &Vec<ExprId>)
    requires
        ids_below(srcs@, old(marks)@.len() as int),
    ensures
        final(marks)@.len() == old(marks)@.len(),
        forall|i: int| 0 <= i < old(marks)@.len() ==> #[trigger] final(marks)@[i] == (old(marks)@[i] || mentions(srcs@, i)),
{
    let mut q: usize = 0;
    while q < srcs.len()
        invariant
            q <= srcs@.len(),
            marks@.len() == old(marks)@.len(),
            ids_below(srcs@, old(marks)@.len() as int),
            forall|i: int| 0 <= i < old(marks)@.len() ==> #[trigger] marks@[i] == (old(marks)@[i] || mentions(srcs@.take(q as int), i)),
        decreases srcs@.len() - q,
    {
        let x = srcs[q];
        marks.set(x.0, true);
        proof {
            assert(srcs@.take(q as int + 1) =~= srcs@.take(q as int).push(x));
            assert forall|i: int| 0 <= i < old(marks)@.len() implies #[trigger] marks@[i] == (old(marks)@[i] || mentions(srcs@.take(q as int + 1), i)) by {
                let t1 = srcs@.take(q as int + 1);
                let t0 = srcs@.take(q as int);
                if i == x.0 {
                    assert(t1[q as int] == x);
                } else if mentions(t1, i) {
                    let k = choose|k: int| 0 <= k < t1.len() && (#[trigger] t1[k]).0 == i;
                    assert(k < q);
                    assert(t0[k] == t1[k]);
                } else if mentions(t0, i) {
                    let k = choose|k: int| 0 <= k < t0.len() && (#[trigger] t0[k]).0 == i;
                    assert(t0[k] == t1[k]);
                }
            }
        }
        q = q + 1;
    }
    proof {
        assert(srcs@.take(srcs@.len() as int) =~= srcs@);
    }
}

impl Conditions {
    /// The assumptions, then the assertions.
    pub open spec fn roots(&self) -> Seq<ExprId> {
        self.assumptions@ + self.assertions@
    }

    /// For every expression, whether it is reachable from the assumptions
    /// and assertions.
    pub fn reachable(&self) -> (r: Vec<bool>)
        requires
            self.wf(),
        ensures
            reach_closed(self.exprs@, self.roots(), r@),
            reach_least(self.exprs@, self.roots(), r@),
    {
        let ghost t = self.exprs@;
        let ghost roots = self.roots();
        let n = self.exprs.len();
        let mut marks: Vec<bool> = Vec::new();
        let mut i: usize = 0;
        while i < n
            invariant
                n == t.len(),
                i <= n,
                marks@ == Seq::new(i as nat, |k: int| false),
            decreases n - i,
        {
            marks.push(false);
            proof {
                assert(marks@ =~= Seq::new(i as nat + 1, |k: int| false));
            }
            i = i + 1;
        }
        let mut roots_exec: Vec<ExprId> = Vec::new();
        let mut k: usize = 0;
        while k < self.assumptions.len()
            invariant
                k <= self.assumptions@.len(),
                roots_exec@ == self.assumptions@.take(k as int),
            decreases self.assumptions@.len() - k,
        {
            roots_exec.push(self.assumptions[k]);
            proof {
                assert(self.assumptions@.take(k as int + 1) =~= self.assumptions@.take(k as int).push(self.assumptions@[k as int]));
            }
            k = k + 1;
        }
        k = 0;
        while k < self.assertions.len()
            invariant
                k <= self.assertions@.len(),
                roots_exec@ == self.assumptions@ + self.assertions@.take(k as int),
            decreases self.assertions@.len() - k,
        {
            roots_exec.push(self.assertions[k]);
            proof {
                if k == 0 {
                    assert(self.assumptions@.take(self.assumptions@.len() as int) =~= self.assumptions@);
                }
                assert(self.assertions@.take(k as int + 1) =~= self.assertions@.take(k as int).push(self.assertions@[k as int]));
                assert(self.assumptions@ + self.assertions@.take(k as int + 1) =~= (self.assumptions@ + self.assertions@.take(k as int)).push(self.assertions@[k as int]));
            }
            k = k + 1;
        }
        proof {
            if self.assertions@.len() == 0 {
                assert(self.assumptions@.take(self.assumptions@.len() as int) =~= self.assumptions@);
            }
            assert(self.assertions@.take(self.assertions@.len() as int) =~= self.assertions@);
            assert(roots_exec@ =~= roots);
            assert(ids_below(roots, n as int)) by {
                assert forall|q: int| 0 <= q < roots.len() implies (#[trigger] roots[q]).0 < n by {
                    if q < self.assumptions@.len() {
                        assert(roots[q] == self.assumptions@[q]);
                    } else {
                        assert(roots[q] == self.assertions@[q - self.assumptions@.len()]);
                    }
                }
            }
        }
        mark_all(&mut marks, &roots_exec);
        let mut j: usize = n;
        while j > 0
            invariant
                n == t.len(),
                t == self.exprs@,
                roots == self.roots(),
                self.wf(),
                j <= n,
                marks@.len() == n,
                forall|i: int| 0 <= i < n && mentions(roots, i) ==> #[trigger] marks@[i],
                forall|p: int, i: int|
                    j <= p < n && 0 <= i < n && #[trigger] marks@[p] && #[trigger] mentions(expr_sources(t[p]), i) ==> marks@[i],
                reach_least(t, roots, marks@),
            decreases j,
        {
            j = j - 1;
            if marks[j] {
                let srcs = self.exprs[j].sources();
                proof {
                    assert(expr_wf_at(t[j as int], j as int, self.variables@.len() as int));
                }
                let ghost before = marks@;
                mark_all(&mut marks, &srcs);
                proof {
                    assert forall|i: int| 0 <= i < marks@.len() && #[trigger] marks@[i] implies mentions(roots, i) || exists|p: int|
                        i < p < marks@.len() && marks@[p] && #[trigger] mentions(expr_sources(t[p]), i) by {
                        if before[i] {
                            if !mentions(roots, i) {
                                let p = choose|p: int| i < p < before.len() && before[p] && #[trigger] mentions(expr_sources(t[p]), i);
                                assert(marks@[p]);
                            }
                        } else {
                            let k = choose|k: int| 0 <= k < srcs@.len() && (#[trigger] srcs@[k]).0 == i;
                            assert(srcs@[k].0 < j);
                            assert(marks@[j as int]);
                        }
                    }
                }
            }
        }
        proof {
            assert forall|i: int| 0 <= i < t.len() && mentions(roots, i) implies #[trigger] marks@[i] by {}
        }
        marks
    }

    /// Check that every expression but a variable is reachable from the
    /// assumptions and assertions; otherwise name the first one that is not.
    pub fn validate(&self) -> (r: Result<(), ExprId>)
        requires
            self.wf(),
        ensures
            exists|m: Seq<bool>| {
                &&& reach_closed(self.exprs@, self.roots(), m)
                &&& reach_least(self.exprs@, self.roots(), m)
                &&& (r is Ok <==> forall|i: int| 0 <= i < self.exprs@.len() && !(#[trigger] self.exprs@[i] is Variable) ==> m[i])
                &&& (r matches Err(x) ==> x.0 < self.exprs@.len() && !(self.exprs@[x.0 as int] is Variable) && !m[x.0 as int])
            },
    {
        let marks = self.reachable();
        let mut i: usize = 0;
        while i < self.exprs.len()
            invariant
                i <= self.exprs@.len(),
                marks@.len() == self.exprs@.len(),
                reach_closed(self.exprs@, self.roots(), marks@),
                reach_least(self.exprs@, self.roots(), marks@),
                forall|q: int| 0 <= q < i && !(#[trigger] self.exprs@[q] is Variable) ==> marks@[q],
            decreases self.exprs@.len() - i,
        {
            if !self.exprs[i].is_variable() && !marks[i] {
                return Err(ExprId(i));
            }
            i = i + 1;
        }
        Ok(())
    }
}


fn ids_all_below(s: &Vec<ExprId>, n: usize) -> (r: bool)
    ensures
        r == ids_below(s@, n as int),
{
    let mut k: usize = 0;
    while k < s.len()
        invariant
            k <= s@.len(),
            forall|j: int| 0 <= j < k ==> (#[trigger] s@[j]).0 < n,
        decreases s@.len() - k,
    {
        if s[k].0 >= n {
            return false;
        }
        k = k + 1;
    }
    true
}

impl Conditions {
    /// Whether the conditions are well formed: operands precede their
    /// expressions, every id is in range, and pure expressions are interned.
    pub fn check_wf(&self) -> (r: bool)
        ensures
            r == self.wf(),
    {
        let n = self.exprs.len();
        let nvars = self.variables.len();
        let mut i: usize = 0;
        while i < n
            invariant
                n == self.exprs@.len(),
                nvars == self.variables@.len(),
                i <= n,
                forall|j: int| 0 <= j < i ==> expr_wf_at(#[trigger] self.exprs@[j], j, nvars as int),
            decreases n - i,
        {
            let srcs = self.exprs[i].sources();
            if !ids_all_below(&srcs, i) {
                return false;
            }
            match &self.exprs[i] {
                Expr::Variable(v) => {
                    if v.0 >= nvars {
                        return false;
                    }
                },
                _ => {},
            }
            i = i + 1;
        }
        if !ids_all_below(&self.assumptions, n) || !ids_all_below(&self.assertions, n) {
            return false;
        }
        i = 0;
        while i < n
            invariant
                n == self.exprs@.len(),
                i <= n,
                forall|p: int, q: int| 0 <= p < i && 0 <= q < n && p != q && #[trigger] self.exprs@[p] == #[trigger] self.exprs@[q]
                    ==> !expr_pure(self.exprs@[p]),
            decreases n - i,
        {
            if self.exprs[i].pure() {
                let mut j: usize = 0;
                while j < n
                    invariant
                        n == self.exprs@.len(),
                        i < n,
                        j <= n,
                        expr_pure(self.exprs@[i as int]),
                        forall|p: int, q: int| 0 <= p < i && 0 <= q < n && p != q && #[trigger] self.exprs@[p] == #[trigger] self.exprs@[q]
                            ==> !expr_pure(self.exprs@[p]),
                        forall|q: int| 0 <= q < j && q != i ==> self.exprs@[i as int] != #[trigger] self.exprs@[q],
                    decreases n - j,
                {
                    if j != i && self.exprs[i] == self.exprs[j] {
                        return false;
                    }
                    j = j + 1;
                }
            }
            i = i + 1;
        }
        true
    }
}

} // verus!
