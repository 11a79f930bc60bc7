//! SMT-LIB text of verification conditions under one type assignment.
use vstd::prelude::*;
use crate::conditions::Conditions;
use crate::expr::{BinaryOp, Expr, ExprId, UnaryOp};
use crate::literal::{binary_digits, const_text, const_to_smt, decimal_chars, decimal_digits, encodable, two_pow};
use crate::smt::{BvTerm, Command, RotationDirection, bv_term_text, command_text, encode_rotate, push_chars, push_str, render_command, render_term, satisfies_all};
use crate::circuit::{SliceTerm, encode_cls, encode_popcnt, leading_sign_bits, popcount, clz_width, satisfiable_from, fresh_declarations, encode_clz, encode_rev, leading_zeros, render_slices, reversed, slice_eval, slice_text, slice_width};
use crate::types::{Const, Type, Width};

verus! {

/// Why an expression has no SMT-LIB text.
#[derive(Clone, Copy, Debug, PartialEq, Eq, Structural)]
pub enum EncodeError {
    /// The type of an expression is not concrete.
    NonConcreteType,
    /// An operand needs a bit-vector type of known width.
    UnknownWidth,
    /// A width operand has no known integer value.
    UnknownValue,
    /// An extension to a narrower width, or an extract with `high < low`.
    BadWidth,
    /// The constant has no SMT-LIB text.
    BadConstant,
    /// The meaning is not settled: a conversion to a narrower width, which
    /// might keep the low bits or might be meant never to lose any.
    Inconclusive,
    /// The expression has no text of this form: it is a variable, or its
    /// operator is defined by commands of its own (leading zeros, bit
    /// reversal, width conversion, floating point), or it has no encoding.
    Unsupported,
}

/// Types chosen by type inference: the type of each expression and, for
/// integer expressions of known value, that value.
#[derive(Debug)]
pub struct Assignment {
    pub types: Vec<Type>,
    pub int_values: Vec<Option<i128>>,
}

impl Assignment {
    pub open spec fn fits(&self, c: &Conditions) -> bool {
        self.types@.len() == c.exprs@.len() && self.int_values@.len() == c.exprs@.len()
    }

    /// Width of expression `x`, when it is a bit vector of known width.
    pub open spec fn width(&self, x: ExprId) -> Option<usize> {
        match self.types@[x.0 as int] {
            Type::BitVector(Width::Bits(w)) => Some(w),
            _ => None,
        }
    }

    pub fn try_bit_vector_width(&self, x: ExprId) -> (r: Result<usize, EncodeError>)
        requires
            x.0 < self.types@.len(),
        ensures
            r == (match self.width(x) {
                Some(w) => Ok(w),
                None => Err(EncodeError::UnknownWidth),
            }),
    {
        match &self.types[x.0] {
            Type::BitVector(Width::Bits(w)) => Ok(*w),
            _ => Err(EncodeError::UnknownWidth),
        }
    }

    pub fn try_int_value(&self, x: ExprId) -> (r: Result<i128, EncodeError>)
        requires
            x.0 < self.int_values@.len(),
        ensures
            r == (match self.int_values@[x.0 as int] {
                Some(v) => Ok(v),
                None => Err(EncodeError::UnknownValue),
            }),
    {
        match self.int_values[x.0] {
            Some(v) => Ok(v),
            None => Err(EncodeError::UnknownValue),
        }
    }
}

/// Name of an SMT sort.
pub open spec fn sort_text(ty: Type) -> Result<Seq<char>, EncodeError> {
    match ty {
        Type::BitVector(Width::Bits(w)) => Ok(seq!['(', '_', ' ', 'B', 'i', 't', 'V', 'e', 'c', ' '] + decimal_digits(w as nat) + seq![')']),
        Type::Int => Ok(seq!['I', 'n', 't']),
        Type::Bool => Ok(seq!['B', 'o', 'o', 'l']),
        Type::Unspecified => Ok(seq!['U', 'n', 's', 'p', 'e', 'c', 'i', 'f', 'i', 'e', 'd']),
        Type::Unit => Ok(seq!['U', 'n', 'i', 't']),
        _ => Err(EncodeError::NonConcreteType),
    }
}

fn chars(s: &str) -> (r: Vec<char>)
    ensures
        r@ == s@,
{
    let mut r: Vec<char> = Vec::new();
    push_str(&mut r, s);
    r
}

/// The SMT sort of a concrete type.
pub fn type_to_sort(ty: &Type) -> (r: Result<Vec<char>, EncodeError>)
    ensures
        match sort_text(*ty) {
            Ok(t) => r matches Ok(s) && s@ == t,
            Err(e) => r == Err::<Vec<char>, EncodeError>(e),
        },
{
    match ty {
        Type::BitVector(Width::Bits(w)) => {
            let mut out = vec!['(', '_', ' ', 'B', 'i', 't', 'V', 'e', 'c', ' '];
            let digits = decimal_chars(*w as u128);
            push_chars(&mut out, &digits);
            out.push(')');
            proof {
                assert(out@ =~= seq!['(', '_', ' ', 'B', 'i', 't', 'V', 'e', 'c', ' '] + decimal_digits(*w as nat) + seq![')']);
            }
            Ok(out)
        },
        Type::Int => Ok(vec!['I', 'n', 't']),
        Type::Bool => Ok(vec!['B', 'o', 'o', 'l']),
        Type::Unspecified => Ok(vec!['U', 'n', 's', 'p', 'e', 'c', 'i', 'f', 'i', 'e', 'd']),
        Type::Unit => Ok(vec!['U', 'n', 'i', 't']),
        _ => Err(EncodeError::NonConcreteType),
    }
}

/// Name of expression `x` in the solver: a variable's name followed by
/// `_` and the id, or `e` and the id.
pub open spec fn expr_name_text(c: Conditions, x: ExprId) -> Seq<char> {
    match c.exprs@[x.0 as int] {
        Expr::Variable(v) => c.variables@[v.0 as int].name@ + seq!['_'] + decimal_digits(x.0 as nat),
        _ => seq!['e'] + decimal_digits(x.0 as nat),
    }
}

/// The name of expression `x` in the solver.
pub fn expr_name(c: &Conditions, x: ExprId) -> (r: Vec<char>)
    requires
        c.wf(),
        x.0 < c.exprs@.len(),
    ensures
        r@ == expr_name_text(*c, x),
{
    let digits = decimal_chars(x.0 as u128);
    let mut out: Vec<char> = Vec::new();
    match &c.exprs[x.0] {
        Expr::Variable(v) => {
            proof {
                assert(crate::conditions::expr_wf_at(c.exprs@[x.0 as int], x.0 as int, c.variables@.len() as int));
            }
            push_str(&mut out, c.variables[v.0].name.as_str());
            out.push('_');
        },
        _ => {
            out.push('e');
        },
    }
    push_chars(&mut out, &digits);
    out
}

/// SMT-LIB name of an operator of one operand written `(op x)`.
pub open spec fn unary_name(op: UnaryOp) -> Option<&'static str> {
    match op {
        UnaryOp::Not => Some("not"),
        UnaryOp::BVNot => Some("bvnot"),
        UnaryOp::BVNeg => Some("bvneg"),
        UnaryOp::BV2Nat => Some("bv2nat"),
        _ => None,
    }
}

/// SMT-LIB name of an operator of two operands written `(op x y)`.
pub open spec fn binary_name(op: BinaryOp) -> Option<&'static str> {
    match op {
        BinaryOp::And => Some("and"),
        BinaryOp::Or => Some("or"),
        BinaryOp::Imp => Some("=>"),
        BinaryOp::Eq => Some("="),
        BinaryOp::Lt => Some("<"),
        BinaryOp::Lte => Some("<="),
        BinaryOp::Add => Some("+"),
        BinaryOp::Sub => Some("-"),
        BinaryOp::Mul => Some("*"),
        BinaryOp::BVUgt => Some("bvugt"),
        BinaryOp::BVUge => Some("bvuge"),
        BinaryOp::BVUlt => Some("bvult"),
        BinaryOp::BVUle => Some("bvule"),
        BinaryOp::BVSgt => Some("bvsgt"),
        BinaryOp::BVSge => Some("bvsge"),
        BinaryOp::BVSlt => Some("bvslt"),
        BinaryOp::BVSle => Some("bvsle"),
        BinaryOp::BVSaddo => Some("bvsaddo"),
        BinaryOp::BVAdd => Some("bvadd"),
        BinaryOp::BVSub => Some("bvsub"),
        BinaryOp::BVMul => Some("bvmul"),
        BinaryOp::BVSDiv => Some("bvsdiv"),
        BinaryOp::BVUDiv => Some("bvudiv"),
        BinaryOp::BVSRem => Some("bvsrem"),
        BinaryOp::BVURem => Some("bvurem"),
        BinaryOp::BVAnd => Some("bvand"),
        BinaryOp::BVOr => Some("bvor"),
        BinaryOp::BVXor => Some("bvxor"),
        BinaryOp::BVShl => Some("bvshl"),
        BinaryOp::BVLShr => Some("bvlshr"),
        BinaryOp::BVAShr => Some("bvashr"),
        BinaryOp::BVConcat => Some("concat"),
        _ => None,
    }
}

fn unary_name_of(op: UnaryOp) -> (r: Option<&'static str>)
    ensures
        r == unary_name(op),
{
    match op {
        UnaryOp::Not => Some("not"),
        UnaryOp::BVNot => Some("bvnot"),
        UnaryOp::BVNeg => Some("bvneg"),
        UnaryOp::BV2Nat => Some("bv2nat"),
        _ => None,
    }
}

fn binary_name_of(op: BinaryOp) -> (r: Option<&'static str>)
    ensures
        r == binary_name(op),
{
    match op {
        BinaryOp::And => Some("and"),
        BinaryOp::Or => Some("or"),
        BinaryOp::Imp => Some("=>"),
        BinaryOp::Eq => Some("="),
        BinaryOp::Lt => Some("<"),
        BinaryOp::Lte => Some("<="),
        BinaryOp::Add => Some("+"),
        BinaryOp::Sub => Some("-"),
        BinaryOp::Mul => Some("*"),
        BinaryOp::BVUgt => Some("bvugt"),
        BinaryOp::BVUge => Some("bvuge"),
        BinaryOp::BVUlt => Some("bvult"),
        BinaryOp::BVUle => Some("bvule"),
        BinaryOp::BVSgt => Some("bvsgt"),
        BinaryOp::BVSge => Some("bvsge"),
        BinaryOp::BVSlt => Some("bvslt"),
        BinaryOp::BVSle => Some("bvsle"),
        BinaryOp::BVSaddo => Some("bvsaddo"),
        BinaryOp::BVAdd => Some("bvadd"),
        BinaryOp::BVSub => Some("bvsub"),
        BinaryOp::BVMul => Some("bvmul"),
        BinaryOp::BVSDiv => Some("bvsdiv"),
        BinaryOp::BVUDiv => Some("bvudiv"),
        BinaryOp::BVSRem => Some("bvsrem"),
        BinaryOp::BVURem => Some("bvurem"),
        BinaryOp::BVAnd => Some("bvand"),
        BinaryOp::BVOr => Some("bvor"),
        BinaryOp::BVXor => Some("bvxor"),
        BinaryOp::BVShl => Some("bvshl"),
        BinaryOp::BVLShr => Some("bvlshr"),
        BinaryOp::BVAShr => Some("bvashr"),
        BinaryOp::BVConcat => Some("concat"),
        _ => None,
    }
}

/// `(f a)`.
pub open spec fn app1(f: Seq<char>, a: Seq<char>) -> Seq<char> {
    seq!['('] + f + seq![' '] + a + seq![')']
}

/// `(f a b)`.
pub open spec fn app2(f: Seq<char>, a: Seq<char>, b: Seq<char>) -> Seq<char> {
    seq!['('] + f + seq![' '] + a + seq![' '] + b + seq![')']
}

/// `((_ f n) a)`: an indexed operator applied to `a`.
pub open spec fn indexed(f: Seq<char>, n: nat, a: Seq<char>) -> Seq<char> {
    app1(seq!['(', '_', ' '] + f + seq![' '] + decimal_digits(n) + seq![')'], a)
}

pub open spec fn zero_extend_text() -> Seq<char> {
    seq!['z', 'e', 'r', 'o', '_', 'e', 'x', 't', 'e', 'n', 'd']
}

pub open spec fn sign_extend_text() -> Seq<char> {
    seq!['s', 'i', 'g', 'n', '_', 'e', 'x', 't', 'e', 'n', 'd']
}

pub open spec fn int2bv_text() -> Seq<char> {
    seq!['i', 'n', 't', '2', 'b', 'v']
}

/// A bit vector of `src` bits extended to `dst` bits, or unchanged when the
/// widths agree.
pub open spec fn extend_text(f: Seq<char>, dst: int, src: int, a: Seq<char>) -> Result<Seq<char>, EncodeError> {
    if dst < src {
        Err(EncodeError::BadWidth)
    } else if dst == src {
        Ok(a)
    } else {
        Ok(indexed(f, (dst - src) as nat, a))
    }
}

/// SMT-LIB text of the definition of non-variable expression `x`.
pub open spec fn expr_text(c: Conditions, a: Assignment, x: ExprId) -> Result<Seq<char>, EncodeError> {
    let n = |y: ExprId| expr_name_text(c, y);
    match c.exprs@[x.0 as int] {
        Expr::Variable(_) => Err(EncodeError::Unsupported),
        Expr::Const(k) => if encodable(k) {
            Ok(const_text(k))
        } else {
            Err(EncodeError::BadConstant)
        },
        Expr::Unary(UnaryOp::WidthOf, y) => match a.width(y) {
            Some(w) => Ok(decimal_digits(w as nat)),
            None => Err(EncodeError::UnknownWidth),
        },
        Expr::Unary(op, y) => match unary_name(op) {
            Some(f) => Ok(app1(f@, n(y))),
            None => Err(EncodeError::Unsupported),
        },
        Expr::Binary(BinaryOp::BVRotl, y, k) => match a.width(y) {
            Some(w) => if w >= 1 {
                Ok(rotate_text(RotationDirection::Left, n(y), n(k), w))
            } else {
                Err(EncodeError::BadWidth)
            },
            None => Err(EncodeError::UnknownWidth),
        },
        Expr::Binary(BinaryOp::BVRotr, y, k) => match a.width(y) {
            Some(w) => if w >= 1 {
                Ok(rotate_text(RotationDirection::Right, n(y), n(k), w))
            } else {
                Err(EncodeError::BadWidth)
            },
            None => Err(EncodeError::UnknownWidth),
        },
        Expr::Binary(BinaryOp::BVZeroExt, d, y) => match (a.int_values@[d.0 as int], a.width(y)) {
            (Some(dst), Some(src)) => extend_text(zero_extend_text(), dst as int, src as int, n(y)),
            (None, _) => Err(EncodeError::UnknownValue),
            _ => Err(EncodeError::UnknownWidth),
        },
        Expr::Binary(BinaryOp::BVSignExt, d, y) => match (a.int_values@[d.0 as int], a.width(y)) {
            (Some(dst), Some(src)) => extend_text(sign_extend_text(), dst as int, src as int, n(y)),
            (None, _) => Err(EncodeError::UnknownValue),
            _ => Err(EncodeError::UnknownWidth),
        },
        Expr::Binary(BinaryOp::Int2BV, d, y) => match a.int_values@[d.0 as int] {
            Some(w) => if 0 <= w <= usize::MAX {
                Ok(indexed(int2bv_text(), w as nat, n(y)))
            } else {
                Err(EncodeError::BadWidth)
            },
            None => Err(EncodeError::UnknownValue),
        },
        Expr::Binary(op, y, z) => match binary_name(op) {
            Some(f) => Ok(app2(f@, n(y), n(z))),
            None => Err(EncodeError::Unsupported),
        },
        Expr::Conditional(p, y, z) => Ok(seq!['(', 'i', 't', 'e', ' '] + n(p) + seq![' '] + n(y) + seq![' '] + n(z) + seq![')']),
        Expr::BVExtract(h, l, y) => if l <= h {
            Ok(app1(seq!['(', '_', ' ', 'e', 'x', 't', 'r', 'a', 'c', 't', ' '] + decimal_digits(h as nat) + seq![' ']
                + decimal_digits(l as nat) + seq![')'], n(y)))
        } else {
            Err(EncodeError::BadWidth)
        },
    }
}

/// Text of the rotation of the bit vector named `x` by the amount named `k`.
pub open spec fn rotate_text(dir: RotationDirection, x: Seq<char>, k: Seq<char>, w: usize) -> Seq<char> {
    let wl = seq!['#', 'b'] + binary_digits(w as nat, w as nat);
    let wa = app2(seq!['b', 'v', 'u', 'r', 'e', 'm'], k, wl);
    let wd = app2(seq!['b', 'v', 's', 'u', 'b'], wl, wa);
    let shl = seq!['b', 'v', 's', 'h', 'l'];
    let lshr = seq!['b', 'v', 'l', 's', 'h', 'r'];
    match dir {
        RotationDirection::Left => app2(seq!['b', 'v', 'o', 'r'], app2(shl, x, wa), app2(lshr, x, wd)),
        RotationDirection::Right => app2(seq!['b', 'v', 'o', 'r'], app2(shl, x, wd), app2(lshr, x, wa)),
    }
}

/// The text of a rotation of named operands.
pub proof fn lemma_rotate_text(dir: RotationDirection, x: String, k: String, w: usize)
    ensures
        bv_term_text(crate::smt::rotate_term(dir, BvTerm::Var(x), BvTerm::Var(k), w)) == rotate_text(dir, x@, k@, w),
{
    let t = crate::smt::rotate_term(dir, BvTerm::Var(x), BvTerm::Var(k), w);
    let wl = BvTerm::Lit(w, w as u128);
    let wa = BvTerm::Binary(crate::smt::BvOp::Urem, Box::new(BvTerm::Var(k)), Box::new(wl));
    let wd = BvTerm::Binary(crate::smt::BvOp::Sub, Box::new(wl), Box::new(wa));
    assert(bv_term_text(BvTerm::Var(k)) == k@);
    assert(bv_term_text(BvTerm::Var(x)) == x@);
    assert((w as u128) as nat == w as nat);
    assert(bv_term_text(wl) == seq!['#', 'b'] + binary_digits(w as nat, w as nat));
    assert(bv_term_text(wa) =~= app2(seq!['b', 'v', 'u', 'r', 'e', 'm'], k@, seq!['#', 'b'] + binary_digits(w as nat, w as nat)));
    assert(bv_term_text(wd) =~= app2(seq!['b', 'v', 's', 'u', 'b'], seq!['#', 'b'] + binary_digits(w as nat, w as nat), bv_term_text(wa)));
    match dir {
        RotationDirection::Left => {
            let hi = BvTerm::Binary(crate::smt::BvOp::Shl, Box::new(BvTerm::Var(x)), Box::new(wa));
            let lo = BvTerm::Binary(crate::smt::BvOp::Lshr, Box::new(BvTerm::Var(x)), Box::new(wd));
            assert(bv_term_text(hi) =~= app2(seq!['b', 'v', 's', 'h', 'l'], x@, bv_term_text(wa)));
            assert(bv_term_text(lo) =~= app2(seq!['b', 'v', 'l', 's', 'h', 'r'], x@, bv_term_text(wd)));
            assert(bv_term_text(t) =~= rotate_text(dir, x@, k@, w));
        },
        RotationDirection::Right => {
            let hi = BvTerm::Binary(crate::smt::BvOp::Shl, Box::new(BvTerm::Var(x)), Box::new(wd));
            let lo = BvTerm::Binary(crate::smt::BvOp::Lshr, Box::new(BvTerm::Var(x)), Box::new(wa));
            assert(bv_term_text(hi) =~= app2(seq!['b', 'v', 's', 'h', 'l'], x@, bv_term_text(wd)));
            assert(bv_term_text(lo) =~= app2(seq!['b', 'v', 'l', 's', 'h', 'r'], x@, bv_term_text(wa)));
            assert(bv_term_text(t) =~= rotate_text(dir, x@, k@, w));
        },
    }
}


fn app1_of(f: &Vec<char>, a: &Vec<char>) -> (r: Vec<char>)
    ensures
        r@ == app1(f@, a@),
{
    let mut out = vec!['('];
    push_chars(&mut out, f);
    out.push(' ');
    push_chars(&mut out, a);
    out.push(')');
    proof {
        assert(out@ =~= app1(f@, a@));
    }
    out
}

fn app2_of(f: &Vec<char>, a: &Vec<char>, b: &Vec<char>) -> (r: Vec<char>)
    ensures
        r@ == app2(f@, a@, b@),
{
    let mut out = vec!['('];
    push_chars(&mut out, f);
    out.push(' ');
    push_chars(&mut out, a);
    out.push(' ');
    push_chars(&mut out, b);
    out.push(')');
    proof {
        assert(out@ =~= app2(f@, a@, b@));
    }
    out
}

fn indexed_of(f: Vec<char>, n: u128, a: &Vec<char>) -> (r: Vec<char>)
    ensures
        r@ == indexed(f@, n as nat, a@),
{
    let mut head = vec!['(', '_', ' '];
    push_chars(&mut head, &f);
    head.push(' ');
    push_chars(&mut head, &decimal_chars(n));
    head.push(')');
    proof {
        assert(head@ =~= seq!['(', '_', ' '] + f@ + seq![' '] + decimal_digits(n as nat) + seq![')']);
    }
    app1_of(&head, a)
}

fn extend_of(f: Vec<char>, dst: i128, src: usize, a: Vec<char>) -> (r: Result<Vec<char>, EncodeError>)
    ensures
        match extend_text(f@, dst as int, src as int, a@) {
            Ok(t) => r matches Ok(s) && s@ == t,
            Err(e) => r == Err::<Vec<char>, EncodeError>(e),
        },
{
    if dst < src as i128 {
        Err(EncodeError::BadWidth)
    } else if dst == src as i128 {
        Ok(a)
    } else {
        Ok(indexed_of(f, (dst - src as i128) as u128, &a))
    }
}

/// SMT-LIB text of the definition of non-variable expression `x`.
pub fn expr_to_smt(c: &Conditions, a: &Assignment, x: ExprId) -> (r: Result<String, EncodeError>)
    requires
        c.wf(),
        a.fits(c),
        x.0 < c.exprs@.len(),
    ensures
        match expr_text(*c, *a, x) {
            Ok(t) => r matches Ok(s) && s@ == t,
            Err(e) => r == Err::<String, EncodeError>(e),
        },
{
    proof {
        let e = c.exprs@[x.0 as int];
        assert(crate::conditions::expr_wf_at(e, x.0 as int, c.variables@.len() as int));
        let srcs = crate::expr::expr_sources(e);
        match e {
            Expr::Unary(_, y) => assert(srcs[0] == y),
            Expr::BVExtract(_, _, y) => assert(srcs[0] == y),
            Expr::Binary(_, y, z) => assert(srcs[0] == y && srcs[1] == z),
            Expr::Conditional(p, y, z) => assert(srcs[0] == p && srcs[1] == y && srcs[2] == z),
            _ => {},
        }
    }
    let text: Vec<char> = match &c.exprs[x.0] {
        Expr::Variable(_) => {
            return Err(EncodeError::Unsupported);
        },
        Expr::Const(k) => {
            if !is_encodable(k) {
                return Err(EncodeError::BadConstant);
            }
            let s = const_to_smt(k);
            let mut out: Vec<char> = Vec::new();
            push_str(&mut out, s.as_str());
            out
        },
        Expr::Unary(UnaryOp::WidthOf, y) => {
            let w = a.try_bit_vector_width(*y)?;
            decimal_chars(w as u128)
        },
        Expr::Unary(op, y) => match unary_name_of(*op) {
            Some(f) => app1_of(&chars(f), &expr_name(c, *y)),
            None => {
                return Err(EncodeError::Unsupported);
            },
        },
        Expr::Binary(BinaryOp::BVRotl, y, k) => {
            let w = a.try_bit_vector_width(*y)?;
            if w < 1 {
                return Err(EncodeError::BadWidth);
            }
            let xs = crate::literal::string_of(&expr_name(c, *y));
            let ks = crate::literal::string_of(&expr_name(c, *k));
            proof {
                lemma_rotate_text(RotationDirection::Left, xs, ks, w);
            }
            let t = encode_rotate(RotationDirection::Left, BvTerm::Var(xs), BvTerm::Var(ks), w);
            let mut out: Vec<char> = Vec::new();
            render_term(&t, &mut out);
            out
        },
        Expr::Binary(BinaryOp::BVRotr, y, k) => {
            let w = a.try_bit_vector_width(*y)?;
            if w < 1 {
                return Err(EncodeError::BadWidth);
            }
            let xs = crate::literal::string_of(&expr_name(c, *y));
            let ks = crate::literal::string_of(&expr_name(c, *k));
            proof {
                lemma_rotate_text(RotationDirection::Right, xs, ks, w);
            }
            let t = encode_rotate(RotationDirection::Right, BvTerm::Var(xs), BvTerm::Var(ks), w);
            let mut out: Vec<char> = Vec::new();
            render_term(&t, &mut out);
            out
        },
        Expr::Binary(BinaryOp::BVZeroExt, d, y) => {
            let dst = a.try_int_value(*d)?;
            let src = a.try_bit_vector_width(*y)?;
            extend_of(vec!['z', 'e', 'r', 'o', '_', 'e', 'x', 't', 'e', 'n', 'd'], dst, src, expr_name(c, *y))?
        },
        Expr::Binary(BinaryOp::BVSignExt, d, y) => {
            let dst = a.try_int_value(*d)?;
            let src = a.try_bit_vector_width(*y)?;
            extend_of(vec!['s', 'i', 'g', 'n', '_', 'e', 'x', 't', 'e', 'n', 'd'], dst, src, expr_name(c, *y))?
        },
        Expr::Binary(BinaryOp::Int2BV, d, y) => {
            let w = a.try_int_value(*d)?;
            if w < 0 || w > usize::MAX as i128 {
                return Err(EncodeError::BadWidth);
            }
            indexed_of(vec!['i', 'n', 't', '2', 'b', 'v'], w as u128, &expr_name(c, *y))
        },
        Expr::Binary(op, y, z) => match binary_name_of(*op) {
            Some(f) => app2_of(&chars(f), &expr_name(c, *y), &expr_name(c, *z)),
            None => {
                return Err(EncodeError::Unsupported);
            },
        },
        Expr::Conditional(p, y, z) => {
            let mut out = vec!['(', 'i', 't', 'e', ' '];
            push_chars(&mut out, &expr_name(c, *p));
            out.push(' ');
            push_chars(&mut out, &expr_name(c, *y));
            out.push(' ');
            push_chars(&mut out, &expr_name(c, *z));
            out.push(')');
            out
        },
        Expr::BVExtract(h, l, y) => {
            if *l > *h {
                return Err(EncodeError::BadWidth);
            }
            let mut head = vec!['(', '_', ' ', 'e', 'x', 't', 'r', 'a', 'c', 't', ' '];
            push_chars(&mut head, &decimal_chars(*h as u128));
            head.push(' ');
            push_chars(&mut head, &decimal_chars(*l as u128));
            head.push(')');
            app1_of(&head, &expr_name(c, *y))
        },
    };
    proof {
        assert(text@ =~= expr_text(*c, *a, x)->Ok_0);
    }
    Ok(crate::literal::string_of(&text))
}

/// Whether a constant has SMT-LIB text.
pub fn is_encodable(k: &Const) -> (r: bool)
    ensures
        r == encodable(*k),
{
    match k {
        Const::BitVector(w, v) => {
            if *w == 0 {
                return false;
            }
            if *w >= 128 {
                proof {
                    crate::literal::lemma_two_pow_128(*w as nat);
                }
                return true;
            }
            let bound: u128 = 1u128 << (*w as u128);
            proof {
                crate::literal::lemma_shift_is_two_pow(*w as nat);
            }
            *v < bound
        },
        Const::Unspecified => false,
        _ => true,
    }
}


/// `(declare-const name sort)` for expression `x`.
pub open spec fn declare_text(c: Conditions, a: Assignment, x: ExprId) -> Result<Seq<char>, EncodeError> {
    match sort_text(a.types@[x.0 as int]) {
        Ok(sort) => Ok(app2(seq!['d', 'e', 'c', 'l', 'a', 'r', 'e', '-', 'c', 'o', 'n', 's', 't'], expr_name_text(c, x), sort)),
        Err(e) => Err(e),
    }
}

/// The declaration of expression `x`.
pub fn declare_expr(c: &Conditions, a: &Assignment, x: ExprId) -> (r: Result<String, EncodeError>)
    requires
        c.wf(),
        a.fits(c),
        x.0 < c.exprs@.len(),
    ensures
        match declare_text(*c, *a, x) {
            Ok(t) => r matches Ok(s) && s@ == t,
            Err(e) => r == Err::<String, EncodeError>(e),
        },
{
    let sort = type_to_sort(&a.types[x.0])?;
    let text = app2_of(
        &vec!['d', 'e', 'c', 'l', 'a', 'r', 'e', '-', 'c', 'o', 'n', 's', 't'],
        &expr_name(c, x),
        &sort,
    );
    Ok(crate::literal::string_of(&text))
}

/// `(assert (! (= name term) :named exprX))`: the definition of expression
/// `x`, named after its id.
pub open spec fn define_text(c: Conditions, a: Assignment, x: ExprId) -> Result<Seq<char>, EncodeError> {
    match expr_text(c, a, x) {
        Ok(t) => Ok(app1(
            seq!['a', 's', 's', 'e', 'r', 't'],
            seq!['(', '!', ' '] + app2(seq!['='], expr_name_text(c, x), t) + seq![' ', ':', 'n', 'a', 'm', 'e', 'd', ' ', 'e', 'x', 'p', 'r']
                + decimal_digits(x.0 as nat) + seq![')'],
        )),
        Err(e) => Err(e),
    }
}

/// The assertion that defines non-variable expression `x`.
pub fn assign_expr(c: &Conditions, a: &Assignment, x: ExprId) -> (r: Result<String, EncodeError>)
    requires
        c.wf(),
        a.fits(c),
        x.0 < c.exprs@.len(),
    ensures
        match define_text(*c, *a, x) {
            Ok(t) => r matches Ok(s) && s@ == t,
            Err(e) => r == Err::<String, EncodeError>(e),
        },
{
    let term = expr_to_smt(c, a, x)?;
    let mut t: Vec<char> = Vec::new();
    push_str(&mut t, term.as_str());
    let eq = app2_of(&vec!['='], &expr_name(c, x), &t);
    let mut inner = vec!['(', '!', ' '];
    push_chars(&mut inner, &eq);
    push_chars(&mut inner, &vec![' ', ':', 'n', 'a', 'm', 'e', 'd', ' ', 'e', 'x', 'p', 'r']);
    push_chars(&mut inner, &decimal_chars(x.0 as u128));
    inner.push(')');
    let text = app1_of(&vec!['a', 's', 's', 'e', 'r', 't'], &inner);
    proof {
        assert(inner@ =~= seq!['(', '!', ' '] + app2(seq!['='], expr_name_text(*c, x), t@) + seq![' ', ':', 'n', 'a', 'm', 'e', 'd', ' ', 'e', 'x', 'p', 'r']
            + decimal_digits(x.0 as nat) + seq![')']);
    }
    Ok(crate::literal::string_of(&text))
}

/// Names of `xs`, each preceded by a space.
pub open spec fn spaced_names(c: Conditions, xs: Seq<ExprId>) -> Seq<char>
    decreases xs.len(),
{
    if xs.len() == 0 {
        seq![]
    } else {
        spaced_names(c, xs.drop_last()) + seq![' '] + expr_name_text(c, xs.last())
    }
}

/// Conjunction of the expressions `xs`: `true` when there are none, the one
/// name when there is one, else `(and x1 x2 ...)`.
pub open spec fn conjunction_text(c: Conditions, xs: Seq<ExprId>) -> Seq<char> {
    if xs.len() == 0 {
        seq!['t', 'r', 'u', 'e']
    } else if xs.len() == 1 {
        expr_name_text(c, xs[0])
    } else {
        seq!['(', 'a', 'n', 'd'] + spaced_names(c, xs) + seq![')']
    }
}

/// The conjunction of the expressions `xs`.
pub fn conjunction(c: &Conditions, xs: &Vec<ExprId>) -> (r: Vec<char>)
    requires
        c.wf(),
        crate::conditions::ids_below(xs@, c.exprs@.len() as int),
    ensures
        r@ == conjunction_text(*c, xs@),
{
    if xs.len() == 0 {
        return vec!['t', 'r', 'u', 'e'];
    }
    if xs.len() == 1 {
        return expr_name(c, xs[0]);
    }
    let mut out = vec!['(', 'a', 'n', 'd'];
    let mut i: usize = 0;
    while i < xs.len()
        invariant
            c.wf(),
            crate::conditions::ids_below(xs@, c.exprs@.len() as int),
            i <= xs@.len(),
            out@ == seq!['(', 'a', 'n', 'd'] + spaced_names(*c, xs@.take(i as int)),
        decreases xs@.len() - i,
    {
        out.push(' ');
        push_chars(&mut out, &expr_name(c, xs[i]));
        proof {
            let tk = xs@.take(i as int + 1);
            assert(tk.drop_last() =~= xs@.take(i as int));
            assert(out@ =~= seq!['(', 'a', 'n', 'd'] + spaced_names(*c, tk));
        }
        i = i + 1;
    }
    out.push(')');
    proof {
        assert(xs@.take(xs@.len() as int) =~= xs@);
    }
    out
}

/// `(assert A)` with `A` the conjunction of the assumptions: their joint
/// satisfiability decides whether the expansion applies.
pub fn assumptions_assertion(c: &Conditions) -> (r: String)
    requires
        c.wf(),
    ensures
        r@ == app1(seq!['a', 's', 's', 'e', 'r', 't'], conjunction_text(*c, c.assumptions@)),
{
    let text = app1_of(&vec!['a', 's', 's', 'e', 'r', 't'], &conjunction(c, &c.assumptions));
    crate::literal::string_of(&text)
}

/// `(assert (not (=> A S)))` with `A` the conjunction of the assumptions and
/// `S` that of the assertions: it is unsatisfiable exactly when the
/// assumptions imply the assertions.
pub fn verification_condition(c: &Conditions) -> (r: String)
    requires
        c.wf(),
    ensures
        r@ == app1(
            seq!['a', 's', 's', 'e', 'r', 't'],
            app1(seq!['n', 'o', 't'], app2(seq!['=', '>'], conjunction_text(*c, c.assumptions@), conjunction_text(*c, c.assertions@))),
        ),
{
    let imp = app2_of(&vec!['=', '>'], &conjunction(c, &c.assumptions), &conjunction(c, &c.assertions));
    let not = app1_of(&vec!['n', 'o', 't'], &imp);
    let text = app1_of(&vec!['a', 's', 's', 'e', 'r', 't'], &not);
    crate::literal::string_of(&text)
}

/// The name of expression `x` in the solver, as a string.
pub fn expr_atom(c: &Conditions, x: ExprId) -> (r: String)
    requires
        c.wf(),
        x.0 < c.exprs@.len(),
    ensures
        r@ == expr_name_text(*c, x),
{
    crate::literal::string_of(&expr_name(c, x))
}


/// The commands that define a count of leading zeros, expression `x` of
/// the form `clz(y)` with `y` of width `w`: `gen` rendered, then the
/// assertion that `x` is the count `f` they pin down.
pub open spec fn clz_definition_text(c: Conditions, x: ExprId, gen: Seq<Command>, f: Seq<char>, cmds: Seq<String>) -> bool {
    &&& cmds.len() == gen.len() + 1
    &&& forall|k: int| 0 <= k < gen.len() ==> (#[trigger] cmds[k])@ == command_text(gen[k])
    &&& cmds[gen.len() as int]@ == app1(seq!['a', 's', 's', 'e', 'r', 't'], app2(seq!['='], expr_name_text(c, x), f))
}

/// `gen` declares fresh distinct names, among them `f`; it has a model for
/// every value of `y`, and in every model `f` is the number of leading
/// zeros of `y`.
pub open spec fn clz_pins(c: Conditions, y: ExprId, w: nat, gen: Seq<Command>, f: Seq<char>) -> bool {
    &&& forall|env: spec_fn(Seq<char>) -> nat| #[trigger] satisfies_all(gen, env, w)
        ==> env(f) % two_pow(w) == leading_zeros(env(expr_name_text(c, y)) % two_pow(w), w)
    &&& forall|env: spec_fn(Seq<char>) -> nat| #[trigger] satisfiable_from(gen, env, expr_name_text(c, y), w)
    &&& fresh_declarations(gen, expr_name_text(c, y))
    &&& exists|k: int| 0 <= k < gen.len() && #[trigger] crate::circuit::declares(gen[k], f, w as usize)
}

/// `cmds` are the text of a circuit that pins down the leading zeros of `y`,
/// then the assertion that `x` is that count.
pub open spec fn clz_defined(c: Conditions, x: ExprId, y: ExprId, w: nat, cmds: Seq<String>) -> bool {
    exists|gen: Seq<Command>, f: Seq<char>| #[trigger] clz_definition_text(c, x, gen, f, cmds) && clz_pins(c, y, w, gen, f)
}

/// Commands defining expression `x`, a count of leading zeros, by the
/// search circuit. In every model of the circuit the count it pins down is
/// the number of leading zeros of the operand.
pub fn clz_definition(c: &Conditions, a: &Assignment, x: ExprId) -> (r: Result<Vec<String>, EncodeError>)
    requires
        c.wf(),
        a.fits(c),
        x.0 < c.exprs@.len(),
    ensures
        clz_result(*c, *a, x, r),
{
    let y = match &c.exprs[x.0] {
        Expr::Unary(UnaryOp::Clz, y) => *y,
        _ => {
            return Err(EncodeError::Unsupported);
        },
    };
    proof {
        let e = c.exprs@[x.0 as int];
        assert(crate::conditions::expr_wf_at(e, x.0 as int, c.variables@.len() as int));
        assert(crate::expr::expr_sources(e)[0] == y);
    }
    let w = match a.try_bit_vector_width(y) {
        Ok(w) => w,
        Err(e) => {
            return Err(e);
        },
    };
    if !(w == 1 || w == 2 || w == 4 || w == 8 || w == 16 || w == 32 || w == 64) {
        return Err(EncodeError::Unsupported);
    }
    let operand = crate::literal::string_of(&expr_name(c, y));
    let (gen, f) = encode_clz(&operand, w, x.0);
    let mut cmds: Vec<String> = Vec::new();
    let mut k: usize = 0;
    while k < gen.len()
        invariant
            k <= gen@.len(),
            cmds@.len() == k,
            forall|j: int| 0 <= j < k ==> (#[trigger] cmds@[j])@ == command_text(gen@[j]),
        decreases gen@.len() - k,
    {
        cmds.push(render_command(&gen[k]));
        k = k + 1;
    }
    let mut fc: Vec<char> = Vec::new();
    push_str(&mut fc, f.as_str());
    let eq = app2_of(&vec!['='], &expr_name(c, x), &fc);
    let last = app1_of(&vec!['a', 's', 's', 'e', 'r', 't'], &eq);
    let ghost rendered = cmds@;
    proof {
        assert(fc@ =~= f@);
        assert(last@ == app1(seq!['a', 's', 's', 'e', 'r', 't'], app2(seq!['='], expr_name_text(*c, x), f@)));
    }
    cmds.push(crate::literal::string_of(&last));
    proof {
        assert forall|j: int| 0 <= j < gen@.len() implies (#[trigger] cmds@[j])@ == command_text(gen@[j]) by {
            assert(cmds@[j] == rendered[j]);
        }
        assert(clz_definition_text(*c, x, gen@, f@, cmds@));
        assert(operand@ == expr_name_text(*c, y));
        assert(forall|env: spec_fn(Seq<char>) -> nat| #[trigger] satisfies_all(gen@, env, w as nat)
            ==> env(f@) % two_pow(w as nat) == leading_zeros(env(expr_name_text(*c, y)) % two_pow(w as nat), w as nat));
        assert(forall|env: spec_fn(Seq<char>) -> nat| #[trigger] satisfiable_from(gen@, env, expr_name_text(*c, y), w as nat));
        assert(fresh_declarations(gen@, expr_name_text(*c, y)));
        let k = choose|k: int| 0 <= k < gen@.len() && #[trigger] crate::circuit::declares(gen@[k], f@, w);
        assert(crate::circuit::declares(gen@[k], f@, (w as nat) as usize));
        assert(clz_pins(*c, y, w as nat, gen@, f@));
        assert(clz_defined(*c, x, y, w as nat, cmds@));
    }
    Ok(cmds)
}


/// Text of `(assert (! (= name term) :named exprX))` for expression `x`.
pub open spec fn named_definition(c: Conditions, x: ExprId, t: Seq<char>) -> Seq<char> {
    app1(
        seq!['a', 's', 's', 'e', 'r', 't'],
        seq!['(', '!', ' '] + app2(seq!['='], expr_name_text(c, x), t) + seq![' ', ':', 'n', 'a', 'm', 'e', 'd', ' ', 'e', 'x', 'p', 'r']
            + decimal_digits(x.0 as nat) + seq![')'],
    )
}

fn named_definition_of(c: &Conditions, x: ExprId, t: &Vec<char>) -> (r: String)
    requires
        c.wf(),
        x.0 < c.exprs@.len(),
    ensures
        r@ == named_definition(*c, x, t@),
{
    let eq = app2_of(&vec!['='], &expr_name(c, x), t);
    let mut inner = vec!['(', '!', ' '];
    push_chars(&mut inner, &eq);
    push_chars(&mut inner, &vec![' ', ':', 'n', 'a', 'm', 'e', 'd', ' ', 'e', 'x', 'p', 'r']);
    push_chars(&mut inner, &decimal_chars(x.0 as u128));
    inner.push(')');
    let text = app1_of(&vec!['a', 's', 's', 'e', 'r', 't'], &inner);
    proof {
        assert(inner@ =~= seq!['(', '!', ' '] + app2(seq!['='], expr_name_text(*c, x), t@) + seq![' ', ':', 'n', 'a', 'm', 'e', 'd', ' ', 'e', 'x', 'p', 'r']
            + decimal_digits(x.0 as nat) + seq![')']);
    }
    crate::literal::string_of(&text)
}

/// Name of the fresh padding of conversion `x`.
pub open spec fn padding_name(x: ExprId) -> Seq<char> {
    seq!['c', 'o', 'n', 'v', '_', 'p', 'a', 'd', '_'] + decimal_digits(x.0 as nat)
}

/// Commands defining the conversion of the `src`-bit operand named `y` to
/// `dst` bits: wider, it is the operand under fresh padding bits, which
/// are unconstrained; equal, the operand itself. A narrower conversion is
/// left open: whether it may drop high bits is not settled, so it is
/// reported as inconclusive rather than given one meaning.
pub open spec fn conv_to_text(c: Conditions, x: ExprId, y: Seq<char>, dst: int, src: int) -> Result<Seq<Seq<char>>, EncodeError> {
    if dst > src {
        Ok(seq![
            app2(seq!['d', 'e', 'c', 'l', 'a', 'r', 'e', '-', 'c', 'o', 'n', 's', 't'], padding_name(x),
                seq!['(', '_', ' ', 'B', 'i', 't', 'V', 'e', 'c', ' '] + decimal_digits((dst - src) as nat) + seq![')']),
            named_definition(c, x, app2(seq!['c', 'o', 'n', 'c', 'a', 't'], padding_name(x), y)),
        ])
    } else if dst < src {
        Err(EncodeError::Inconclusive)
    } else {
        Ok(seq![named_definition(c, x, y)])
    }
}

/// Commands defining expression `x`, a conversion `conv_to(d, y)`.
pub fn conv_to_definition(c: &Conditions, a: &Assignment, x: ExprId) -> (r: Result<Vec<String>, EncodeError>)
    requires
        c.wf(),
        a.fits(c),
        x.0 < c.exprs@.len(),
    ensures
        conv_to_result(*c, *a, x, r),
{
    let (d, y) = match &c.exprs[x.0] {
        Expr::Binary(BinaryOp::BVConvTo, d, y) => (*d, *y),
        _ => {
            return Err(EncodeError::Unsupported);
        },
    };
    proof {
        let e = c.exprs@[x.0 as int];
        assert(crate::conditions::expr_wf_at(e, x.0 as int, c.variables@.len() as int));
        assert(crate::expr::expr_sources(e)[0] == d && crate::expr::expr_sources(e)[1] == y);
    }
    let dst = match a.try_int_value(d) {
        Ok(v) => v,
        Err(e) => {
            return Err(e);
        },
    };
    let src = match a.try_bit_vector_width(y) {
        Ok(w) => w,
        Err(e) => {
            return Err(e);
        },
    };
    let name = expr_name(c, y);
    let mut cmds: Vec<String> = Vec::new();
    if dst > src as i128 {
        let mut pad = vec!['c', 'o', 'n', 'v', '_', 'p', 'a', 'd', '_'];
        push_chars(&mut pad, &decimal_chars(x.0 as u128));
        let mut sort = vec!['(', '_', ' ', 'B', 'i', 't', 'V', 'e', 'c', ' '];
        push_chars(&mut sort, &decimal_chars((dst - src as i128) as u128));
        sort.push(')');
        let decl = app2_of(&vec!['d', 'e', 'c', 'l', 'a', 'r', 'e', '-', 'c', 'o', 'n', 's', 't'], &pad, &sort);
        cmds.push(crate::literal::string_of(&decl));
        let term = app2_of(&vec!['c', 'o', 'n', 'c', 'a', 't'], &pad, &name);
        cmds.push(named_definition_of(c, x, &term));
        proof {
            assert(pad@ =~= padding_name(x));
            assert(sort@ =~= seq!['(', '_', ' ', 'B', 'i', 't', 'V', 'e', 'c', ' '] + decimal_digits((dst - src) as nat) + seq![')']);
        }
    } else if dst < src as i128 {
        return Err(EncodeError::Inconclusive);
    } else {
        cmds.push(named_definition_of(c, x, &name));
    }
    Ok(cmds)
}


/// Exponent and significand bits of the floating-point format of a width.
pub open spec fn fp_format(w: int) -> Option<(nat, nat)> {
    if w == 32 {
        Some((8, 24))
    } else if w == 64 {
        Some((11, 53))
    } else {
        None
    }
}

/// `(_ f eb sb)`.
pub open spec fn fp_index(f: Seq<char>, eb: nat, sb: nat) -> Seq<char> {
    seq!['(', '_', ' '] + f + seq![' '] + decimal_digits(eb) + seq![' '] + decimal_digits(sb) + seq![')']
}

/// `((_ to_fp eb sb) t)`: bit vector `t` read as a floating-point value.
pub open spec fn as_fp(eb: nat, sb: nat, t: Seq<char>) -> Seq<char> {
    app1(fp_index(seq!['t', 'o', '_', 'f', 'p'], eb, sb), t)
}

pub open spec fn nearest_even() -> &'static str {
    "roundNearestTiesToEven"
}

/// Comparisons of two floating-point operands.
pub open spec fn fp_test_name(op: BinaryOp) -> Option<&'static str> {
    match op {
        BinaryOp::FPEq => Some("fp.eq"),
        BinaryOp::FPNe => Some("fp.eq"),
        BinaryOp::FPLt => Some("fp.lt"),
        BinaryOp::FPGt => Some("fp.gt"),
        BinaryOp::FPLe => Some("fp.leq"),
        BinaryOp::FPGe => Some("fp.geq"),
        _ => None,
    }
}

/// Operations of two floating-point operands; the flag says whether they
/// take a rounding mode.
pub open spec fn fp_binary_name(op: BinaryOp) -> Option<(&'static str, bool)> {
    match op {
        BinaryOp::FPAdd => Some(("fp.add", true)),
        BinaryOp::FPSub => Some(("fp.sub", true)),
        BinaryOp::FPMul => Some(("fp.mul", true)),
        BinaryOp::FPDiv => Some(("fp.div", true)),
        BinaryOp::FPMin => Some(("fp.min", false)),
        BinaryOp::FPMax => Some(("fp.max", false)),
        _ => None,
    }
}

/// Predicates of one floating-point operand.
pub open spec fn fp_predicate_name(op: UnaryOp) -> Option<&'static str> {
    match op {
        UnaryOp::FPIsZero => Some("fp.isZero"),
        UnaryOp::FPIsInfinite => Some("fp.isInfinite"),
        UnaryOp::FPIsNaN => Some("fp.isNaN"),
        UnaryOp::FPIsNegative => Some("fp.isNegative"),
        UnaryOp::FPIsPositive => Some("fp.isPositive"),
        _ => None,
    }
}

/// Operations of one floating-point operand, with their rounding mode if
/// they take one.
pub open spec fn fp_unary_name(op: UnaryOp) -> Option<(&'static str, Option<&'static str>)> {
    match op {
        UnaryOp::FPNeg => Some(("fp.neg", None)),
        UnaryOp::FPSqrt => Some(("fp.sqrt", None)),
        UnaryOp::FPCeil => Some(("fp.roundToIntegral", Some("roundTowardPositive"))),
        UnaryOp::FPFloor => Some(("fp.roundToIntegral", Some("roundTowardNegative"))),
        UnaryOp::FPTrunc => Some(("fp.roundToIntegral", Some("roundTowardZero"))),
        UnaryOp::FPNearest => Some(("fp.roundToIntegral", Some("roundNearestTiesToEven"))),
        _ => None,
    }
}

/// Special values, of the width their operand gives.
pub open spec fn fp_special_name(op: UnaryOp) -> Option<&'static str> {
    match op {
        UnaryOp::FPPositiveInfinity => Some("+oo"),
        UnaryOp::FPNegativeInfinity => Some("-oo"),
        UnaryOp::FPPositiveZero => Some("+zero"),
        UnaryOp::FPNegativeZero => Some("-zero"),
        UnaryOp::FPNaN => Some("NaN"),
        _ => None,
    }
}

/// Name of the fresh bit vector that holds the value of floating-point
/// expression `x`.
pub open spec fn fp_result_name(x: ExprId) -> Seq<char> {
    seq!['f', 'p', '_', 'r', 'e', 's', '_'] + decimal_digits(x.0 as nat)
}

/// Commands defining `x` as the bit vector of `w` bits whose floating-point
/// reading is `value`.
pub open spec fn fp_value_commands(c: Conditions, x: ExprId, w: nat, eb: nat, sb: nat, value: Seq<char>) -> Seq<Seq<char>> {
    seq![
        app2(seq!['d', 'e', 'c', 'l', 'a', 'r', 'e', '-', 'c', 'o', 'n', 's', 't'], fp_result_name(x),
            seq!['(', '_', ' ', 'B', 'i', 't', 'V', 'e', 'c', ' '] + decimal_digits(w) + seq![')']),
        app1(seq!['a', 's', 's', 'e', 'r', 't'], app2(seq!['='], as_fp(eb, sb, fp_result_name(x)), value)),
        named_definition(c, x, fp_result_name(x)),
    ]
}

/// Commands defining floating-point expression `x`, where the width of
/// the format comes from the operand's bit-vector width (`from_width`) or
/// from the value of an integer operand.
pub open spec fn fp_text(c: Conditions, a: Assignment, x: ExprId) -> Result<Seq<Seq<char>>, EncodeError> {
    let n = |y: ExprId| expr_name_text(c, y);
    match c.exprs@[x.0 as int] {
        Expr::Binary(op, y, z) => if fp_test_name(op) is Some {
            match a.width(y) {
                Some(w) => match fp_format(w as int) {
                    Some((eb, sb)) => {
                        let t = app2(fp_test_name(op)->Some_0@, as_fp(eb, sb, n(y)), as_fp(eb, sb, n(z)));
                        Ok(seq![named_definition(c, x, if op == BinaryOp::FPNe { app1(seq!['n', 'o', 't'], t) } else { t })])
                    },
                    None => Err(EncodeError::BadWidth),
                },
                None => Err(EncodeError::UnknownWidth),
            }
        } else if fp_binary_name(op) is Some {
            match a.width(y) {
                Some(w) => match fp_format(w as int) {
                    Some((eb, sb)) => {
                        let (f, rounded) = fp_binary_name(op)->Some_0;
                        let args = as_fp(eb, sb, n(y)) + seq![' '] + as_fp(eb, sb, n(z));
                        let v = if rounded {
                            seq!['('] + f@ + seq![' '] + nearest_even()@ + seq![' '] + args + seq![')']
                        } else {
                            seq!['('] + f@ + seq![' '] + args + seq![')']
                        };
                        Ok(fp_value_commands(c, x, w as nat, eb, sb, v))
                    },
                    None => Err(EncodeError::BadWidth),
                },
                None => Err(EncodeError::UnknownWidth),
            }
        } else if op == BinaryOp::ToFP || op == BinaryOp::ToFPUnsigned || op == BinaryOp::ToFPFromFP {
            match a.int_values@[y.0 as int] {
                Some(w) => match fp_format(w as int) {
                    Some((eb, sb)) => {
                        let f = if op == BinaryOp::ToFPUnsigned {
                            seq!['t', 'o', '_', 'f', 'p', '_', 'u', 'n', 's', 'i', 'g', 'n', 'e', 'd']
                        } else {
                            seq!['t', 'o', '_', 'f', 'p']
                        };
                        let head = seq!['('] + fp_index(f, eb, sb) + seq![' '] + nearest_even()@ + seq![' '];
                        if op == BinaryOp::ToFPFromFP {
                            match a.width(z) {
                                Some(v) => match fp_format(v as int) {
                                    Some((eb2, sb2)) => Ok(fp_value_commands(c, x, w as nat, eb, sb, head + as_fp(eb2, sb2, n(z)) + seq![')'])),
                                    None => Err(EncodeError::BadWidth),
                                },
                                None => Err(EncodeError::UnknownWidth),
                            }
                        } else {
                            Ok(fp_value_commands(c, x, w as nat, eb, sb, head + n(z) + seq![')']))
                        }
                    },
                    None => Err(EncodeError::BadWidth),
                },
                None => Err(EncodeError::UnknownValue),
            }
        } else {
            Err(EncodeError::Unsupported)
        },
        Expr::Unary(op, y) => if fp_predicate_name(op) is Some {
            match a.width(y) {
                Some(w) => match fp_format(w as int) {
                    Some((eb, sb)) => Ok(seq![named_definition(c, x, app1(fp_predicate_name(op)->Some_0@, as_fp(eb, sb, n(y))))]),
                    None => Err(EncodeError::BadWidth),
                },
                None => Err(EncodeError::UnknownWidth),
            }
        } else if fp_unary_name(op) is Some {
            match a.width(y) {
                Some(w) => match fp_format(w as int) {
                    Some((eb, sb)) => {
                        let (f, mode) = fp_unary_name(op)->Some_0;
                        let v = match mode {
                            Some(m) => seq!['('] + f@ + seq![' '] + m@ + seq![' '] + as_fp(eb, sb, n(y)) + seq![')'],
                            None => app1(f@, as_fp(eb, sb, n(y))),
                        };
                        Ok(fp_value_commands(c, x, w as nat, eb, sb, v))
                    },
                    None => Err(EncodeError::BadWidth),
                },
                None => Err(EncodeError::UnknownWidth),
            }
        } else if fp_special_name(op) is Some {
            match a.int_values@[y.0 as int] {
                Some(w) => match fp_format(w as int) {
                    Some((eb, sb)) => Ok(fp_value_commands(c, x, w as nat, eb, sb, fp_index(fp_special_name(op)->Some_0@, eb, sb))),
                    None => Err(EncodeError::BadWidth),
                },
                None => Err(EncodeError::UnknownValue),
            }
        } else {
            Err(EncodeError::Unsupported)
        },
        _ => Err(EncodeError::Unsupported),
    }
}


fn fp_format_of(w: i128) -> (r: Option<(u128, u128)>)
    ensures
        match fp_format(w as int) {
            Some((eb, sb)) => r matches Some((e, g)) && e as nat == eb && g as nat == sb,
            None => r is None,
        },
{
    if w == 32 {
        Some((8, 24))
    } else if w == 64 {
        Some((11, 53))
    } else {
        None
    }
}

fn fp_index_of(f: &Vec<char>, eb: u128, sb: u128) -> (r: Vec<char>)
    ensures
        r@ == fp_index(f@, eb as nat, sb as nat),
{
    let mut out = vec!['(', '_', ' '];
    push_chars(&mut out, f);
    out.push(' ');
    push_chars(&mut out, &decimal_chars(eb));
    out.push(' ');
    push_chars(&mut out, &decimal_chars(sb));
    out.push(')');
    proof {
        assert(out@ =~= fp_index(f@, eb as nat, sb as nat));
    }
    out
}

fn as_fp_of(eb: u128, sb: u128, t: &Vec<char>) -> (r: Vec<char>)
    ensures
        r@ == as_fp(eb as nat, sb as nat, t@),
{
    app1_of(&fp_index_of(&vec!['t', 'o', '_', 'f', 'p'], eb, sb), t)
}

fn fp_test_name_of(op: BinaryOp) -> (r: Option<&'static str>)
    ensures
        r == fp_test_name(op),
{
    match op {
        BinaryOp::FPEq => Some("fp.eq"),
        BinaryOp::FPNe => Some("fp.eq"),
        BinaryOp::FPLt => Some("fp.lt"),
        BinaryOp::FPGt => Some("fp.gt"),
        BinaryOp::FPLe => Some("fp.leq"),
        BinaryOp::FPGe => Some("fp.geq"),
        _ => None,
    }
}

fn fp_binary_name_of(op: BinaryOp) -> (r: Option<(&'static str, bool)>)
    ensures
        r == fp_binary_name(op),
{
    match op {
        BinaryOp::FPAdd => Some(("fp.add", true)),
        BinaryOp::FPSub => Some(("fp.sub", true)),
        BinaryOp::FPMul => Some(("fp.mul", true)),
        BinaryOp::FPDiv => Some(("fp.div", true)),
        BinaryOp::FPMin => Some(("fp.min", false)),
        BinaryOp::FPMax => Some(("fp.max", false)),
        _ => None,
    }
}

fn fp_predicate_name_of(op: UnaryOp) -> (r: Option<&'static str>)
    ensures
        r == fp_predicate_name(op),
{
    match op {
        UnaryOp::FPIsZero => Some("fp.isZero"),
        UnaryOp::FPIsInfinite => Some("fp.isInfinite"),
        UnaryOp::FPIsNaN => Some("fp.isNaN"),
        UnaryOp::FPIsNegative => Some("fp.isNegative"),
        UnaryOp::FPIsPositive => Some("fp.isPositive"),
        _ => None,
    }
}

fn fp_unary_name_of(op: UnaryOp) -> (r: Option<(&'static str, Option<&'static str>)>)
    ensures
        r == fp_unary_name(op),
{
    match op {
        UnaryOp::FPNeg => Some(("fp.neg", None)),
        UnaryOp::FPSqrt => Some(("fp.sqrt", None)),
        UnaryOp::FPCeil => Some(("fp.roundToIntegral", Some("roundTowardPositive"))),
        UnaryOp::FPFloor => Some(("fp.roundToIntegral", Some("roundTowardNegative"))),
        UnaryOp::FPTrunc => Some(("fp.roundToIntegral", Some("roundTowardZero"))),
        UnaryOp::FPNearest => Some(("fp.roundToIntegral", Some("roundNearestTiesToEven"))),
        _ => None,
    }
}

fn fp_special_name_of(op: UnaryOp) -> (r: Option<&'static str>)
    ensures
        r == fp_special_name(op),
{
    match op {
        UnaryOp::FPPositiveInfinity => Some("+oo"),
        UnaryOp::FPNegativeInfinity => Some("-oo"),
        UnaryOp::FPPositiveZero => Some("+zero"),
        UnaryOp::FPNegativeZero => Some("-zero"),
        UnaryOp::FPNaN => Some("NaN"),
        _ => None,
    }
}

fn nearest_even_of() -> (r: &'static str)
    ensures
        r == nearest_even(),
{
    "roundNearestTiesToEven"
}

fn fp_value_commands_of(c: &Conditions, x: ExprId, w: u128, eb: u128, sb: u128, v: &Vec<char>) -> (r: Vec<String>)
    requires
        c.wf(),
        x.0 < c.exprs@.len(),
    ensures
        r@.len() == 3,
        forall|k: int| 0 <= k < 3 ==> (#[trigger] r@[k])@ == fp_value_commands(*c, x, w as nat, eb as nat, sb as nat, v@)[k],
{
    let mut res = vec!['f', 'p', '_', 'r', 'e', 's', '_'];
    push_chars(&mut res, &decimal_chars(x.0 as u128));
    let mut sort = vec!['(', '_', ' ', 'B', 'i', 't', 'V', 'e', 'c', ' '];
    push_chars(&mut sort, &decimal_chars(w));
    sort.push(')');
    let decl = app2_of(&vec!['d', 'e', 'c', 'l', 'a', 'r', 'e', '-', 'c', 'o', 'n', 's', 't'], &res, &sort);
    let eq = app2_of(&vec!['='], &as_fp_of(eb, sb, &res), v);
    let assertion = app1_of(&vec!['a', 's', 's', 'e', 'r', 't'], &eq);
    let def = named_definition_of(c, x, &res);
    proof {
        assert(res@ =~= fp_result_name(x));
        assert(sort@ =~= seq!['(', '_', ' ', 'B', 'i', 't', 'V', 'e', 'c', ' '] + decimal_digits(w as nat) + seq![')']);
    }
    let r = vec![crate::literal::string_of(&decl), crate::literal::string_of(&assertion), def];
    proof {
        let t = fp_value_commands(*c, x, w as nat, eb as nat, sb as nat, v@);
        assert(r@[0]@ == t[0]);
        assert(r@[1]@ == t[1]);
        assert(r@[2]@ == t[2]);
    }
    r
}

/// Commands defining floating-point expression `x`.
#[verifier::spinoff_prover]
#[verifier::rlimit(80)]
pub fn fp_definition(c: &Conditions, a: &Assignment, x: ExprId) -> (r: Result<Vec<String>, EncodeError>)
    requires
        c.wf(),
        a.fits(c),
        x.0 < c.exprs@.len(),
    ensures
        fp_result(*c, *a, x, r),
{
    proof {
        let e = c.exprs@[x.0 as int];
        assert(crate::conditions::expr_wf_at(e, x.0 as int, c.variables@.len() as int));
        let srcs = crate::expr::expr_sources(e);
        match e {
            Expr::Unary(_, y) => assert(srcs[0] == y),
            Expr::Binary(_, y, z) => assert(srcs[0] == y && srcs[1] == z),
            _ => {},
        }
    }
    match &c.exprs[x.0] {
        Expr::Binary(op, y, z) => {
            let test = fp_test_name_of(*op);
            let binary = fp_binary_name_of(*op);
            if test.is_none() && binary.is_none() {
                if *op == BinaryOp::ToFP || *op == BinaryOp::ToFPUnsigned || *op == BinaryOp::ToFPFromFP {
                    return fp_conversion(c, a, x, *op, *y, *z);
                }
                return Err(EncodeError::Unsupported);
            }
            let w = match a.try_bit_vector_width(*y) {
                Ok(w) => w,
                Err(e) => {
                    return Err(e);
                },
            };
            let (eb, sb) = match fp_format_of(w as i128) {
                Some(f) => f,
                None => {
                    return Err(EncodeError::BadWidth);
                },
            };
            let fy = as_fp_of(eb, sb, &expr_name(c, *y));
            let fz = as_fp_of(eb, sb, &expr_name(c, *z));
            match test {
                Some(f) => {
                    let t = app2_of(&chars(f), &fy, &fz);
                    let t = if *op == BinaryOp::FPNe {
                        app1_of(&vec!['n', 'o', 't'], &t)
                    } else {
                        t
                    };
                    let cmds = vec![named_definition_of(c, x, &t)];
                    proof {
                        assert(cmds@[0]@ == fp_text(*c, *a, x)->Ok_0[0]);
                    }
                    Ok(cmds)
                },
                None => {
                    let (f, rounded) = binary.unwrap();
                    let mut v = vec!['('];
                    push_str(&mut v, f);
                    v.push(' ');
                    if rounded {
                        push_str(&mut v, nearest_even_of());
                        v.push(' ');
                    }
                    push_chars(&mut v, &fy);
                    v.push(' ');
                    push_chars(&mut v, &fz);
                    v.push(')');
                    proof {
                        let args = fy@ + seq![' '] + fz@;
                        if rounded {
                            assert(v@ =~= seq!['('] + f@ + seq![' '] + nearest_even()@ + seq![' '] + args + seq![')']);
                        } else {
                            assert(v@ =~= seq!['('] + f@ + seq![' '] + args + seq![')']);
                        }
                    }
                    Ok(fp_value_commands_of(c, x, w as u128, eb, sb, &v))
                },
            }
        },
        Expr::Unary(op, y) => {
            let pred = fp_predicate_name_of(*op);
            let unary = fp_unary_name_of(*op);
            let special = fp_special_name_of(*op);
            if pred.is_none() && unary.is_none() && special.is_none() {
                return Err(EncodeError::Unsupported);
            }
            if special.is_some() && pred.is_none() && unary.is_none() {
                let f = special.unwrap();
                let w = match a.try_int_value(*y) {
                    Ok(w) => w,
                    Err(e) => {
                        return Err(e);
                    },
                };
                let (eb, sb) = match fp_format_of(w) {
                    Some(fmt) => fmt,
                    None => {
                        return Err(EncodeError::BadWidth);
                    },
                };
                let v = fp_index_of(&chars(f), eb, sb);
                return Ok(fp_value_commands_of(c, x, w as u128, eb, sb, &v));
            }
            let w = match a.try_bit_vector_width(*y) {
                Ok(w) => w,
                Err(e) => {
                    return Err(e);
                },
            };
            let (eb, sb) = match fp_format_of(w as i128) {
                Some(fmt) => fmt,
                None => {
                    return Err(EncodeError::BadWidth);
                },
            };
            let fy = as_fp_of(eb, sb, &expr_name(c, *y));
            match pred {
                Some(f) => {
                    let t = app1_of(&chars(f), &fy);
                    let cmds = vec![named_definition_of(c, x, &t)];
                    proof {
                        assert(cmds@[0]@ == fp_text(*c, *a, x)->Ok_0[0]);
                    }
                    Ok(cmds)
                },
                None => {
                    let (f, mode) = unary.unwrap();
                    let v = match mode {
                        Some(m) => {
                            let mut v = vec!['('];
                            push_str(&mut v, f);
                            v.push(' ');
                            push_str(&mut v, m);
                            v.push(' ');
                            push_chars(&mut v, &fy);
                            v.push(')');
                            proof {
                                assert(v@ =~= seq!['('] + f@ + seq![' '] + m@ + seq![' '] + fy@ + seq![')']);
                            }
                            v
                        },
                        None => app1_of(&chars(f), &fy),
                    };
                    Ok(fp_value_commands_of(c, x, w as u128, eb, sb, &v))
                },
            }
        },
        _ => Err(EncodeError::Unsupported),
    }
}


fn fp_conversion(c: &Conditions, a: &Assignment, x: ExprId, op: BinaryOp, y: ExprId, z: ExprId) -> (r: Result<Vec<String>, EncodeError>)
    requires
        c.wf(),
        a.fits(c),
        x.0 < c.exprs@.len(),
        y.0 < c.exprs@.len(),
        z.0 < c.exprs@.len(),
        c.exprs@[x.0 as int] == Expr::Binary(op, y, z),
        op == BinaryOp::ToFP || op == BinaryOp::ToFPUnsigned || op == BinaryOp::ToFPFromFP,
    ensures
        match fp_text(*c, *a, x) {
            Ok(ts) => r matches Ok(cmds) && cmds@.len() == ts.len()
                && forall|k: int| 0 <= k < ts.len() ==> (#[trigger] cmds@[k])@ == ts[k],
            Err(e) => r == Err::<Vec<String>, EncodeError>(e),
        },
{
    let w = match a.try_int_value(y) {
        Ok(w) => w,
        Err(e) => {
            return Err(e);
        },
    };
    let (eb, sb) = match fp_format_of(w) {
        Some(fmt) => fmt,
        None => {
            return Err(EncodeError::BadWidth);
        },
    };
    let f = if op == BinaryOp::ToFPUnsigned {
        vec!['t', 'o', '_', 'f', 'p', '_', 'u', 'n', 's', 'i', 'g', 'n', 'e', 'd']
    } else {
        vec!['t', 'o', '_', 'f', 'p']
    };
    let mut v = vec!['('];
    push_chars(&mut v, &fp_index_of(&f, eb, sb));
    v.push(' ');
    push_str(&mut v, nearest_even_of());
    v.push(' ');
    proof {
        assert(v@ =~= seq!['('] + fp_index(f@, eb as nat, sb as nat) + seq![' '] + nearest_even()@ + seq![' ']);
    }
    let ghost head = v@;
    if op == BinaryOp::ToFPFromFP {
        let src = match a.try_bit_vector_width(z) {
            Ok(s) => s,
            Err(e) => {
                return Err(e);
            },
        };
        let (eb2, sb2) = match fp_format_of(src as i128) {
            Some(fmt) => fmt,
            None => {
                return Err(EncodeError::BadWidth);
            },
        };
        let inner = as_fp_of(eb2, sb2, &expr_name(c, z));
        push_chars(&mut v, &inner);
        v.push(')');
        proof {
            assert(v@ =~= head + as_fp(eb2 as nat, sb2 as nat, expr_name_text(*c, z)) + seq![')']);
        }
    } else {
        push_chars(&mut v, &expr_name(c, z));
        v.push(')');
        proof {
            assert(v@ =~= head + expr_name_text(*c, z) + seq![')']);
        }
    }
    let cmds = fp_value_commands_of(c, x, w as u128, eb, sb, &v);
    Ok(cmds)
}


/// `cmd` defines `x` as a slice term whose value in every model is the bit
/// reversal of the `w`-bit operand `y`.
pub open spec fn rev_defined(c: Conditions, x: ExprId, y: ExprId, w: nat, cmd: Seq<char>) -> bool {
    exists|t: SliceTerm| {
        &&& #[trigger] slice_width(t) == w
        &&& cmd == named_definition(c, x, slice_text(t))
        &&& forall|env: spec_fn(Seq<char>) -> nat| #[trigger] slice_eval(t, env) == reversed(env(expr_name_text(c, y)), w)
    }
}

/// The command defining expression `x`, a bit reversal `rev(y)`.
#[verifier::spinoff_prover]
#[verifier::rlimit(50)]
pub fn rev_definition(c: &Conditions, a: &Assignment, x: ExprId) -> (r: Result<Vec<String>, EncodeError>)
    requires
        c.wf(),
        a.fits(c),
        x.0 < c.exprs@.len(),
    ensures
        rev_result(*c, *a, x, r),
{
    let y = match &c.exprs[x.0] {
        Expr::Unary(UnaryOp::Rev, y) => *y,
        _ => {
            return Err(EncodeError::Unsupported);
        },
    };
    proof {
        let e = c.exprs@[x.0 as int];
        assert(crate::conditions::expr_wf_at(e, x.0 as int, c.variables@.len() as int));
        assert(crate::expr::expr_sources(e)[0] == y);
    }
    let w = match a.try_bit_vector_width(y) {
        Ok(w) => w,
        Err(e) => {
            return Err(e);
        },
    };
    if w < 1 {
        return Err(EncodeError::BadWidth);
    }
    let operand = crate::literal::string_of(&expr_name(c, y));
    let t = encode_rev(&operand, w);
    let mut text: Vec<char> = Vec::new();
    render_slices(&t, &mut text);
    let cmd = named_definition_of(c, x, &text);
    proof {
        assert(operand@ == expr_name_text(*c, y));
        assert(text@ == slice_text(t));
        assert(cmd@ == named_definition(*c, x, slice_text(t)));
        assert(slice_width(t) == w as nat);
        assert(rev_defined(*c, x, y, w as nat, cmd@));
    }
    let cmds = vec![cmd];
    proof {
        assert(cmds@[0]@ == cmd@);
    }
    Ok(cmds)
}



/// What `clz_definition` returns for expression `x`.
pub open spec fn clz_result(c: Conditions, a: Assignment, x: ExprId, r: Result<Vec<String>, EncodeError>) -> bool {
    match c.exprs@[x.0 as int] {
        Expr::Unary(UnaryOp::Clz, y) => match a.width(y) {
            Some(w) => if clz_width(w as nat) {
                r matches Ok(cmds) && clz_defined(c, x, y, w as nat, cmds@)
            } else {
                r == Err::<Vec<String>, EncodeError>(EncodeError::Unsupported)
            },
            None => r == Err::<Vec<String>, EncodeError>(EncodeError::UnknownWidth),
        },
        _ => r == Err::<Vec<String>, EncodeError>(EncodeError::Unsupported),
    }
}

/// What `conv_to_definition` returns for expression `x`.
pub open spec fn conv_to_result(c: Conditions, a: Assignment, x: ExprId, r: Result<Vec<String>, EncodeError>) -> bool {
    match c.exprs@[x.0 as int] {
        Expr::Binary(BinaryOp::BVConvTo, d, y) => match (a.int_values@[d.0 as int], a.width(y)) {
            (Some(dst), Some(src)) => match conv_to_text(c, x, expr_name_text(c, y), dst as int, src as int) {
                Ok(ts) => r matches Ok(cmds) && cmds@.len() == ts.len()
                    && forall|k: int| 0 <= k < ts.len() ==> (#[trigger] cmds@[k])@ == ts[k],
                Err(e) => r == Err::<Vec<String>, EncodeError>(e),
            },
            (None, _) => r == Err::<Vec<String>, EncodeError>(EncodeError::UnknownValue),
            _ => r == Err::<Vec<String>, EncodeError>(EncodeError::UnknownWidth),
        },
        _ => r == Err::<Vec<String>, EncodeError>(EncodeError::Unsupported),
    }
}

/// What `fp_definition` returns for expression `x`.
pub open spec fn fp_result(c: Conditions, a: Assignment, x: ExprId, r: Result<Vec<String>, EncodeError>) -> bool {
    match fp_text(c, a, x) {
        Ok(ts) => r matches Ok(cmds) && cmds@.len() == ts.len()
            && forall|k: int| 0 <= k < ts.len() ==> (#[trigger] cmds@[k])@ == ts[k],
        Err(e) => r == Err::<Vec<String>, EncodeError>(e),
    }
}

/// What `rev_definition` returns for expression `x`.
pub open spec fn rev_result(c: Conditions, a: Assignment, x: ExprId, r: Result<Vec<String>, EncodeError>) -> bool {
    match c.exprs@[x.0 as int] {
        Expr::Unary(UnaryOp::Rev, y) => match a.width(y) {
            Some(w) => if w >= 1 {
                r matches Ok(cmds) && cmds@.len() == 1 && rev_defined(c, x, y, w as nat, cmds@[0]@)
            } else {
                r == Err::<Vec<String>, EncodeError>(EncodeError::BadWidth)
            },
            None => r == Err::<Vec<String>, EncodeError>(EncodeError::UnknownWidth),
        },
        _ => r == Err::<Vec<String>, EncodeError>(EncodeError::Unsupported),
    }
}

/// What `define_expr` returns for expression `x`: nothing for a variable,
/// the commands of its own definition for leading zeros, bit reversal,
/// width conversion and floating point, else the one defining assertion.
pub open spec fn define_result(c: Conditions, a: Assignment, x: ExprId, r: Result<Vec<String>, EncodeError>) -> bool {
    match c.exprs@[x.0 as int] {
        Expr::Variable(_) => r matches Ok(v) && v@.len() == 0,
        Expr::Unary(UnaryOp::Clz, _) => clz_result(c, a, x, r),
        Expr::Unary(UnaryOp::Rev, _) => rev_result(c, a, x, r),
        Expr::Unary(UnaryOp::Popcnt, _) => popcnt_result(c, a, x, r),
        Expr::Unary(UnaryOp::Cls, _) => cls_result(c, a, x, r),
        Expr::Binary(BinaryOp::BVConvTo, _, _) => conv_to_result(c, a, x, r),
        _ => match define_text(c, a, x) {
            Ok(t) => r matches Ok(v) && v@.len() == 1 && v@[0]@ == t,
            Err(EncodeError::Unsupported) => fp_result(c, a, x, r),
            Err(e) => r == Err::<Vec<String>, EncodeError>(e),
        },
    }
}

/// The commands that define expression `x` in the solver.
pub fn define_expr(c: &Conditions, a: &Assignment, x: ExprId) -> (r: Result<Vec<String>, EncodeError>)
    requires
        c.wf(),
        a.fits(c),
        x.0 < c.exprs@.len(),
    ensures
        define_result(*c, *a, x, r),
{
    match &c.exprs[x.0] {
        Expr::Variable(_) => Ok(Vec::new()),
        Expr::Unary(UnaryOp::Clz, _) => clz_definition(c, a, x),
        Expr::Unary(UnaryOp::Rev, _) => rev_definition(c, a, x),
        Expr::Unary(UnaryOp::Popcnt, _) => popcnt_definition(c, a, x),
        Expr::Unary(UnaryOp::Cls, _) => cls_definition(c, a, x),
        Expr::Binary(BinaryOp::BVConvTo, _, _) => conv_to_definition(c, a, x),
        _ => match assign_expr(c, a, x) {
            Ok(cmd) => Ok(vec![cmd]),
            Err(EncodeError::Unsupported) => fp_definition(c, a, x),
            Err(e) => Err(e),
        },
    }
}


/// `cmd` defines `x` as a slice term whose value in every model is the
/// number of set bits of the `w`-bit operand `y`.
pub open spec fn popcnt_defined(c: Conditions, x: ExprId, y: ExprId, w: nat, cmd: Seq<char>) -> bool {
    exists|t: SliceTerm| {
        &&& #[trigger] slice_width(t) == w
        &&& cmd == named_definition(c, x, slice_text(t))
        &&& forall|env: spec_fn(Seq<char>) -> nat| #[trigger] slice_eval(t, env) == popcount(env(expr_name_text(c, y)), w)
    }
}

/// What `popcnt_definition` returns for expression `x`.
pub open spec fn popcnt_result(c: Conditions, a: Assignment, x: ExprId, r: Result<Vec<String>, EncodeError>) -> bool {
    match c.exprs@[x.0 as int] {
        Expr::Unary(UnaryOp::Popcnt, y) => match a.width(y) {
            Some(w) => if w >= 1 {
                r matches Ok(cmds) && cmds@.len() == 1 && popcnt_defined(c, x, y, w as nat, cmds@[0]@)
            } else {
                r == Err::<Vec<String>, EncodeError>(EncodeError::BadWidth)
            },
            None => r == Err::<Vec<String>, EncodeError>(EncodeError::UnknownWidth),
        },
        _ => r == Err::<Vec<String>, EncodeError>(EncodeError::Unsupported),
    }
}

/// The command defining expression `x`, a population count `popcnt(y)`.
#[verifier::spinoff_prover]
#[verifier::rlimit(50)]
pub fn popcnt_definition(c: &Conditions, a: &Assignment, x: ExprId) -> (r: Result<Vec<String>, EncodeError>)
    requires
        c.wf(),
        a.fits(c),
        x.0 < c.exprs@.len(),
    ensures
        popcnt_result(*c, *a, x, r),
{
    let y = match &c.exprs[x.0] {
        Expr::Unary(UnaryOp::Popcnt, y) => *y,
        _ => {
            return Err(EncodeError::Unsupported);
        },
    };
    proof {
        let e = c.exprs@[x.0 as int];
        assert(crate::conditions::expr_wf_at(e, x.0 as int, c.variables@.len() as int));
        assert(crate::expr::expr_sources(e)[0] == y);
    }
    let w = match a.try_bit_vector_width(y) {
        Ok(w) => w,
        Err(e) => {
            return Err(e);
        },
    };
    if w < 1 {
        return Err(EncodeError::BadWidth);
    }
    let operand = crate::literal::string_of(&expr_name(c, y));
    let t = encode_popcnt(&operand, w);
    let mut text: Vec<char> = Vec::new();
    render_slices(&t, &mut text);
    let cmd = named_definition_of(c, x, &text);
    proof {
        assert(operand@ == expr_name_text(*c, y));
        assert(text@ == slice_text(t));
        assert(cmd@ == named_definition(*c, x, slice_text(t)));
        assert(slice_width(t) == w as nat);
        assert(popcnt_defined(*c, x, y, w as nat, cmd@));
    }
    let cmds = vec![cmd];
    proof {
        assert(cmds@[0]@ == cmd@);
    }
    Ok(cmds)
}


/// `gen` has a model for every value of `y` that changes only names it
/// declares, among them `f`; in every model `f` is the number of leading
/// sign bits of `y`.
pub open spec fn cls_pins(c: Conditions, y: ExprId, w: nat, gen: Seq<Command>, f: Seq<char>) -> bool {
    &&& forall|env: spec_fn(Seq<char>) -> nat| #[trigger] satisfies_all(gen, env, w)
        ==> env(f) % two_pow(w) == leading_sign_bits(env(expr_name_text(c, y)) % two_pow(w), w)
    &&& forall|env: spec_fn(Seq<char>) -> nat| #[trigger] satisfiable_from(gen, env, expr_name_text(c, y), w)
    &&& exists|k: int| 0 <= k < gen.len() && #[trigger] crate::circuit::declares(gen[k], f, w as usize)
}

/// `cmds` are the text of the leading-sign-bits circuit of `y`, then the
/// assertion that `x` is its count.
pub open spec fn cls_defined(c: Conditions, x: ExprId, y: ExprId, w: nat, cmds: Seq<String>) -> bool {
    exists|gen: Seq<Command>, f: Seq<char>| #[trigger] clz_definition_text(c, x, gen, f, cmds) && cls_pins(c, y, w, gen, f)
}

/// What `cls_definition` returns for expression `x`.
pub open spec fn cls_result(c: Conditions, a: Assignment, x: ExprId, r: Result<Vec<String>, EncodeError>) -> bool {
    match c.exprs@[x.0 as int] {
        Expr::Unary(UnaryOp::Cls, y) => match a.width(y) {
            Some(w) => if clz_width(w as nat) {
                r matches Ok(cmds) && cls_defined(c, x, y, w as nat, cmds@)
            } else {
                r == Err::<Vec<String>, EncodeError>(EncodeError::Unsupported)
            },
            None => r == Err::<Vec<String>, EncodeError>(EncodeError::UnknownWidth),
        },
        _ => r == Err::<Vec<String>, EncodeError>(EncodeError::Unsupported),
    }
}

/// Commands defining expression `x`, a count of leading sign bits, by the
/// search circuit on the operand with its bits flipped when the top one is
/// set.
pub fn cls_definition(c: &Conditions, a: &Assignment, x: ExprId) -> (r: Result<Vec<String>, EncodeError>)
    requires
        c.wf(),
        a.fits(c),
        x.0 < c.exprs@.len(),
    ensures
        cls_result(*c, *a, x, r),
{
    let y = match &c.exprs[x.0] {
        Expr::Unary(UnaryOp::Cls, y) => *y,
        _ => {
            return Err(EncodeError::Unsupported);
        },
    };
    proof {
        let e = c.exprs@[x.0 as int];
        assert(crate::conditions::expr_wf_at(e, x.0 as int, c.variables@.len() as int));
        assert(crate::expr::expr_sources(e)[0] == y);
    }
    let w = match a.try_bit_vector_width(y) {
        Ok(w) => w,
        Err(e) => {
            return Err(e);
        },
    };
    if !(w == 1 || w == 2 || w == 4 || w == 8 || w == 16 || w == 32 || w == 64) {
        return Err(EncodeError::Unsupported);
    }
    let operand = crate::literal::string_of(&expr_name(c, y));
    let (gen, f) = encode_cls(&operand, w, x.0);
    let mut cmds: Vec<String> = Vec::new();
    let mut k: usize = 0;
    while k < gen.len()
        invariant
            k <= gen@.len(),
            cmds@.len() == k,
            forall|j: int| 0 <= j < k ==> (#[trigger] cmds@[j])@ == command_text(gen@[j]),
        decreases gen@.len() - k,
    {
        cmds.push(render_command(&gen[k]));
        k = k + 1;
    }
    let mut fc: Vec<char> = Vec::new();
    push_str(&mut fc, f.as_str());
    let eq = app2_of(&vec!['='], &expr_name(c, x), &fc);
    let last = app1_of(&vec!['a', 's', 's', 'e', 'r', 't'], &eq);
    let ghost rendered = cmds@;
    proof {
        assert(fc@ =~= f@);
        assert(last@ == app1(seq!['a', 's', 's', 'e', 'r', 't'], app2(seq!['='], expr_name_text(*c, x), f@)));
    }
    cmds.push(crate::literal::string_of(&last));
    proof {
        assert forall|j: int| 0 <= j < gen@.len() implies (#[trigger] cmds@[j])@ == command_text(gen@[j]) by {
            assert(cmds@[j] == rendered[j]);
        }
        assert(clz_definition_text(*c, x, gen@, f@, cmds@));
        assert(operand@ == expr_name_text(*c, y));
        assert(forall|env: spec_fn(Seq<char>) -> nat| #[trigger] satisfies_all(gen@, env, w as nat)
            ==> env(f@) % two_pow(w as nat) == leading_sign_bits(env(expr_name_text(*c, y)) % two_pow(w as nat), w as nat));
        assert(forall|env: spec_fn(Seq<char>) -> nat| #[trigger] satisfiable_from(gen@, env, expr_name_text(*c, y), w as nat));
        let k = choose|k: int| 0 <= k < gen@.len() && #[trigger] crate::circuit::declares(gen@[k], f@, w);
        assert(crate::circuit::declares(gen@[k], f@, (w as nat) as usize));
        assert(cls_pins(*c, y, w as nat, gen@, f@));
        assert(cls_defined(*c, x, y, w as nat, cmds@));
    }
    Ok(cmds)
}

} // verus!
