//! Bit-vector terms sent to the solver, their meaning, and the desugaring of
//! rotations by a dynamic amount.
use vstd::prelude::*;
use crate::literal::{binary_digits, two_pow};

verus! {

/// Bit-vector operators of SMT-LIB.
#[derive(Clone, Copy, Debug, PartialEq, Eq, Structural)]
pub enum BvOp {
    Add,
    Urem,
    Sub,
    Shl,
    Lshr,
    Or,
}

/// A bit-vector term: a declared name, a literal of a width, or an operator
/// applied to two terms.
#[derive(Debug)]
pub enum BvTerm {
    Var(String),
    Lit(usize, u128),
    Binary(BvOp, Box<BvTerm>, Box<BvTerm>),
}

/// Direction of a rotation.
#[derive(Clone, Copy, Debug, PartialEq, Eq, Structural)]
pub enum RotationDirection {
    Left,
    Right,
}

/// Bitwise or of two naturals.
pub open spec fn bit_or(a: nat, b: nat) -> nat
    decreases a + b,
{
    if a == 0 {
        b
    } else if b == 0 {
        a
    } else {
        (if a % 2 == 1 || b % 2 == 1 { 1nat } else { 0nat }) + 2 * bit_or(a / 2, b / 2)
    }
}

/// Meaning of an operator on `w`-bit operands `a` and `b`, as SMT-LIB
/// defines it.
pub open spec fn bv_apply(op: BvOp, a: nat, b: nat, w: nat) -> nat {
    match op {
        BvOp::Add => (a + b) % two_pow(w),
        BvOp::Urem => if b == 0 {
            a
        } else {
            a % b
        },
        BvOp::Sub => ((a + two_pow(w)) - b) as nat % two_pow(w),
        BvOp::Shl => (a * two_pow(b)) % two_pow(w),
        BvOp::Lshr => a / two_pow(b),
        BvOp::Or => bit_or(a, b),
    }
}

/// Value of a `w`-bit term under an assignment of values to names.
pub open spec fn bv_eval(t: BvTerm, env: spec_fn(Seq<char>) -> nat, w: nat) -> nat
    decreases t,
{
    match t {
        BvTerm::Var(n) => env(n@) % two_pow(w),
        BvTerm::Lit(_, v) => v as nat % two_pow(w),
        BvTerm::Binary(op, a, b) => bv_apply(op, bv_eval(*a, env, w), bv_eval(*b, env, w), w),
    }
}

/// Name of an operator in SMT-LIB.
pub open spec fn bv_op_name(op: BvOp) -> Seq<char> {
    match op {
        BvOp::Add => seq!['b', 'v', 'a', 'd', 'd'],
        BvOp::Urem => seq!['b', 'v', 'u', 'r', 'e', 'm'],
        BvOp::Sub => seq!['b', 'v', 's', 'u', 'b'],
        BvOp::Shl => seq!['b', 'v', 's', 'h', 'l'],
        BvOp::Lshr => seq!['b', 'v', 'l', 's', 'h', 'r'],
        BvOp::Or => seq!['b', 'v', 'o', 'r'],
    }
}

/// SMT-LIB text of a term.
pub open spec fn bv_term_text(t: BvTerm) -> Seq<char>
    decreases t,
{
    match t {
        BvTerm::Var(n) => n@,
        BvTerm::Lit(w, v) => seq!['#', 'b'] + binary_digits(v as nat, w as nat),
        BvTerm::Binary(op, a, b) => seq!['('] + bv_op_name(op) + seq![' '] + bv_term_text(*a) + seq![' ']
            + bv_term_text(*b) + seq![')'],
    }
}

/// Rotation of the `w`-bit value `x` by `k`, in the shift-and-or form:
/// left is `(x << (k mod w)) | (x >> (w - k mod w))`, right swaps the shifts.
pub open spec fn rotate_spec(dir: RotationDirection, x: nat, k: nat, w: nat) -> nat {
    let r = k % w;
    match dir {
        RotationDirection::Left => bit_or((x * two_pow(r)) % two_pow(w), x / two_pow((w - r) as nat)),
        RotationDirection::Right => bit_or((x * two_pow((w - r) as nat)) % two_pow(w), x / two_pow(r)),
    }
}

/// The desugared rotation: the amount is reduced modulo the width, and the
/// value shifted both ways by it and by its complement.
pub open spec fn rotate_term(op: RotationDirection, source: BvTerm, amount: BvTerm, width: usize) -> BvTerm {
    let wl = BvTerm::Lit(width, width as u128);
    let wa = BvTerm::Binary(BvOp::Urem, Box::new(amount), Box::new(wl));
    let wd = BvTerm::Binary(BvOp::Sub, Box::new(wl), Box::new(wa));
    match op {
        RotationDirection::Left => BvTerm::Binary(
            BvOp::Or,
            Box::new(BvTerm::Binary(BvOp::Shl, Box::new(source), Box::new(wa))),
            Box::new(BvTerm::Binary(BvOp::Lshr, Box::new(source), Box::new(wd))),
        ),
        RotationDirection::Right => BvTerm::Binary(
            BvOp::Or,
            Box::new(BvTerm::Binary(BvOp::Shl, Box::new(source), Box::new(wd))),
            Box::new(BvTerm::Binary(BvOp::Lshr, Box::new(source), Box::new(wa))),
        ),
    }
}

/// Rotate `source` by the dynamic `amount`. SMT-LIB's rotations take a
/// constant amount only, so the rotation is desugared to shifts and an or.
pub fn encode_rotate(op: RotationDirection, source: BvTerm, amount: BvTerm, width: usize) -> (r: BvTerm)
    requires
        width >= 1,
    ensures
        r == rotate_term(op, source, amount, width),
        forall|env: spec_fn(Seq<char>) -> nat|
            #![trigger bv_eval(r, env, width as nat)]
            bv_eval(r, env, width as nat) == rotate_spec(
                op,
                bv_eval(source, env, width as nat),
                bv_eval(amount, env, width as nat),
                width as nat,
            ),
{
    let width_as_bv = BvTerm::Lit(width, width as u128);
    let wrapped_amount = BvTerm::Binary(BvOp::Urem, Box::new(amount), Box::new(width_as_bv));
    let width_as_bv = BvTerm::Lit(width, width as u128);
    let wrapped_amount_copy = copy_term(&wrapped_amount);
    let wrapped_delta = BvTerm::Binary(BvOp::Sub, Box::new(width_as_bv), Box::new(wrapped_amount_copy));
    let source_copy = copy_term(&source);
    let r = match op {
        RotationDirection::Left => BvTerm::Binary(
            BvOp::Or,
            Box::new(BvTerm::Binary(BvOp::Shl, Box::new(source), Box::new(wrapped_amount))),
            Box::new(BvTerm::Binary(BvOp::Lshr, Box::new(source_copy), Box::new(wrapped_delta))),
        ),
        RotationDirection::Right => BvTerm::Binary(
            BvOp::Or,
            Box::new(BvTerm::Binary(BvOp::Shl, Box::new(source), Box::new(wrapped_delta))),
            Box::new(BvTerm::Binary(BvOp::Lshr, Box::new(source_copy), Box::new(wrapped_amount))),
        ),
    };
    proof {
        let w = width as nat;
        lemma_width_fits(w);
        assert forall|env: spec_fn(Seq<char>) -> nat|
            #![trigger bv_eval(r, env, w)]
            bv_eval(r, env, w) == rotate_spec(op, bv_eval(source, env, w), bv_eval(amount, env, w), w) by {
            let k = bv_eval(amount, env, w);
            let x = bv_eval(source, env, w);
            let lit = BvTerm::Lit(width, width as u128);
            vstd::arithmetic::div_mod::lemma_small_mod(w, two_pow(w));
            assert(bv_eval(lit, env, w) == w);
            assert(bv_eval(wrapped_amount, env, w) == bv_apply(BvOp::Urem, k, w, w));
            assert(bv_eval(wrapped_amount, env, w) == k % w);
            let km = k % w;
            assert(0 <= km < w);
            assert((w + two_pow(w) - km) as nat % two_pow(w) == (w - km) as nat) by {
                assert(w - km <= w);
                assert(w + two_pow(w) - km >= two_pow(w));
                assert((w + two_pow(w) - km) as nat == (w - km) as nat + two_pow(w));
                vstd::arithmetic::div_mod::lemma_mod_add_multiples_vanish((w - km) as int, two_pow(w) as int);
                vstd::arithmetic::div_mod::lemma_small_mod((w - km) as nat, two_pow(w));
            }
            assert(bv_eval(wrapped_delta, env, w) == bv_apply(BvOp::Sub, w, km, w));
            assert(bv_eval(wrapped_delta, env, w) == (w - km) as nat);
            assert(bv_eval(source_copy, env, w) == x);
            match op {
                RotationDirection::Left => {
                    let hi = BvTerm::Binary(BvOp::Shl, Box::new(source), Box::new(wrapped_amount));
                    let lo = BvTerm::Binary(BvOp::Lshr, Box::new(source_copy), Box::new(wrapped_delta));
                    assert(bv_eval(hi, env, w) == (x * two_pow(km)) % two_pow(w));
                    assert(bv_eval(lo, env, w) == x / two_pow((w - km) as nat));
                    assert(r == BvTerm::Binary(BvOp::Or, Box::new(hi), Box::new(lo)));
                },
                RotationDirection::Right => {
                    let hi = BvTerm::Binary(BvOp::Shl, Box::new(source), Box::new(wrapped_delta));
                    let lo = BvTerm::Binary(BvOp::Lshr, Box::new(source_copy), Box::new(wrapped_amount));
                    assert(bv_eval(hi, env, w) == (x * two_pow((w - km) as nat)) % two_pow(w));
                    assert(bv_eval(lo, env, w) == x / two_pow(km));
                    assert(r == BvTerm::Binary(BvOp::Or, Box::new(hi), Box::new(lo)));
                },
            }
        }
    }
    r
}

/// `w` is below `2^w`.
pub proof fn lemma_width_fits(w: nat)
    ensures
        w < two_pow(w),
        two_pow(w) > 0,
    decreases w,
{
    if w > 0 {
        lemma_width_fits((w - 1) as nat);
    }
}

/// A copy of a term.
pub fn copy_term(t: &BvTerm) -> (r: BvTerm)
    ensures
        r == *t,
    decreases t,
{
    match t {
        BvTerm::Var(n) => BvTerm::Var(n.clone()),
        BvTerm::Lit(w, v) => BvTerm::Lit(*w, *v),
        BvTerm::Binary(op, a, b) => BvTerm::Binary(*op, Box::new(copy_term(a)), Box::new(copy_term(b))),
    }
}

/// Append the SMT-LIB text of `t` to `out`.
pub fn render_term(t: &BvTerm, out: &mut Vec<char>)
    ensures
        final(out)@ == old(out)@ + bv_term_text(*t),
    decreases t,
{
    match t {
        BvTerm::Var(n) => {
            push_str(out, n.as_str());
        },
        BvTerm::Lit(w, v) => {
            out.push('#');
            out.push('b');
            let mut cur: u128 = *v;
            let mut digits: Vec<char> = Vec::new();
            let mut i: usize = 0;
            while i < *w
                invariant
                    i <= *w,
                    binary_digits(*v as nat, *w as nat) == binary_digits(cur as nat, (*w - i) as nat) + digits@,
                decreases *w - i,
            {
                let c = if cur % 2 == 1 { '1' } else { '0' };
                proof {
                    let rest = binary_digits((cur / 2) as nat, (*w - i - 1) as nat);
                    assert(c == crate::literal::digit_char((cur % 2) as nat));
                    assert(binary_digits(cur as nat, (*w - i) as nat) == rest.push(c));
                    assert(rest.push(c) + digits@ =~= rest + seq![c].add(digits@));
                }
                digits.insert(0, c);
                proof {
                    assert(digits@ =~= seq![c].add(digits@.drop_first()));
                }
                cur = cur / 2;
                i = i + 1;
            }
            proof {
                assert(binary_digits(*v as nat, *w as nat) =~= digits@);
            }
            push_chars(out, &digits);
            proof {
                assert(final(out)@ =~= old(out)@ + bv_term_text(*t));
            }
        },
        BvTerm::Binary(op, a, b) => {
            let ghost start = out@;
            out.push('(');
            let name = match op {
                BvOp::Add => "bvadd",
                BvOp::Urem => "bvurem",
                BvOp::Sub => "bvsub",
                BvOp::Shl => "bvshl",
                BvOp::Lshr => "bvlshr",
                BvOp::Or => "bvor",
            };
            proof {
                reveal_strlit("bvadd");
                reveal_strlit("bvurem");
                reveal_strlit("bvsub");
                reveal_strlit("bvshl");
                reveal_strlit("bvlshr");
                reveal_strlit("bvor");
                assert(name@ =~= bv_op_name(*op));
            }
            push_str(out, name);
            out.push(' ');
            render_term(a, out);
            out.push(' ');
            render_term(b, out);
            out.push(')');
            proof {
                assert(out@ =~= start + bv_term_text(*t));
            }
        },
    }
}

/// Append the characters of `s` to `out`.
pub fn push_str(out: &mut Vec<char>, s: &str)
    ensures
        final(out)@ == old(out)@ + s@,
{
    let n = vstd::string::StrSliceExecFns::unicode_len(s);
    let mut i: usize = 0;
    while i < n
        invariant
            n == s@.len(),
            i <= n,
            out@ == old(out)@ + s@.take(i as int),
        decreases n - i,
    {
        out.push(vstd::string::StrSliceExecFns::get_char(s, i));
        proof {
            assert(s@.take(i as int + 1) =~= s@.take(i as int).push(s@[i as int]));
        }
        i = i + 1;
    }
    proof {
        assert(s@.take(n as int) =~= s@);
    }
}

/// Append `cs` to `out`.
pub fn push_chars(out: &mut Vec<char>, cs: &Vec<char>)
    ensures
        final(out)@ == old(out)@ + cs@,
{
    let mut i: usize = 0;
    while i < cs.len()
        invariant
            i <= cs@.len(),
            out@ == old(out)@ + cs@.take(i as int),
        decreases cs@.len() - i,
    {
        out.push(cs[i]);
        proof {
            assert(cs@.take(i as int + 1) =~= cs@.take(i as int).push(cs@[i as int]));
        }
        i = i + 1;
    }
    proof {
        assert(cs@.take(cs@.len() as int) =~= cs@);
    }
}


/// A boolean term over bit-vector terms.
#[derive(Debug)]
pub enum BoolTerm {
    Eq(BvTerm, BvTerm),
    Not(Box<BoolTerm>),
    Ite(Box<BoolTerm>, Box<BoolTerm>, Box<BoolTerm>),
}

/// A solver command: declare a bit vector of a width, or assert a term.
#[derive(Debug)]
pub enum Command {
    Declare(String, usize),
    Assert(BoolTerm),
}

/// Truth of a boolean term over `w`-bit terms.
pub open spec fn bool_eval(b: BoolTerm, env: spec_fn(Seq<char>) -> nat, w: nat) -> bool
    decreases b,
{
    match b {
        BoolTerm::Eq(x, y) => bv_eval(x, env, w) == bv_eval(y, env, w),
        BoolTerm::Not(c) => !bool_eval(*c, env, w),
        BoolTerm::Ite(c, t, e) => if bool_eval(*c, env, w) {
            bool_eval(*t, env, w)
        } else {
            bool_eval(*e, env, w)
        },
    }
}

/// Every assertion of `cmds` holds of `env`.
pub open spec fn satisfies_all(cmds: Seq<Command>, env: spec_fn(Seq<char>) -> nat, w: nat) -> bool {
    forall|k: int| 0 <= k < cmds.len() ==> match #[trigger] cmds[k] {
        Command::Assert(b) => bool_eval(b, env, w),
        _ => true,
    }
}

/// SMT-LIB text of a boolean term.
pub open spec fn bool_term_text(b: BoolTerm) -> Seq<char>
    decreases b,
{
    match b {
        BoolTerm::Eq(x, y) => seq!['(', '=', ' '] + bv_term_text(x) + seq![' '] + bv_term_text(y) + seq![')'],
        BoolTerm::Not(c) => seq!['(', 'n', 'o', 't', ' '] + bool_term_text(*c) + seq![')'],
        BoolTerm::Ite(c, t, e) => seq!['(', 'i', 't', 'e', ' '] + bool_term_text(*c) + seq![' '] + bool_term_text(*t)
            + seq![' '] + bool_term_text(*e) + seq![')'],
    }
}

/// Append the SMT-LIB text of `b` to `out`.
pub fn render_bool(b: &BoolTerm, out: &mut Vec<char>)
    ensures
        final(out)@ == old(out)@ + bool_term_text(*b),
    decreases b,
{
    let ghost start = out@;
    match b {
        BoolTerm::Eq(x, y) => {
            out.push('(');
            out.push('=');
            out.push(' ');
            render_term(x, out);
            out.push(' ');
            render_term(y, out);
            out.push(')');
        },
        BoolTerm::Not(c) => {
            out.push('(');
            out.push('n');
            out.push('o');
            out.push('t');
            out.push(' ');
            render_bool(c, out);
            out.push(')');
        },
        BoolTerm::Ite(c, t, e) => {
            out.push('(');
            out.push('i');
            out.push('t');
            out.push('e');
            out.push(' ');
            render_bool(c, out);
            out.push(' ');
            render_bool(t, out);
            out.push(' ');
            render_bool(e, out);
            out.push(')');
        },
    }
    proof {
        assert(out@ =~= start + bool_term_text(*b));
    }
}


/// SMT-LIB text of a command.
pub open spec fn command_text(c: Command) -> Seq<char> {
    match c {
        Command::Declare(n, w) => seq!['(', 'd', 'e', 'c', 'l', 'a', 'r', 'e', '-', 'c', 'o', 'n', 's', 't', ' '] + n@
            + seq![' ', '(', '_', ' ', 'B', 'i', 't', 'V', 'e', 'c', ' '] + crate::literal::decimal_digits(w as nat)
            + seq![')', ')'],
        Command::Assert(b) => seq!['(', 'a', 's', 's', 'e', 'r', 't', ' '] + bool_term_text(b) + seq![')'],
    }
}

/// The SMT-LIB text of a command.
pub fn render_command(c: &Command) -> (r: String)
    ensures
        r@ == command_text(*c),
{
    let mut out: Vec<char> = Vec::new();
    match c {
        Command::Declare(n, w) => {
            push_chars(&mut out, &vec!['(', 'd', 'e', 'c', 'l', 'a', 'r', 'e', '-', 'c', 'o', 'n', 's', 't', ' ']);
            push_str(&mut out, n.as_str());
            push_chars(&mut out, &vec![' ', '(', '_', ' ', 'B', 'i', 't', 'V', 'e', 'c', ' ']);
            push_chars(&mut out, &crate::literal::decimal_chars(*w as u128));
            out.push(')');
            out.push(')');
        },
        Command::Assert(b) => {
            push_chars(&mut out, &vec!['(', 'a', 's', 's', 'e', 'r', 't', ' ']);
            render_bool(b, &mut out);
            out.push(')');
        },
    }
    proof {
        assert(out@ =~= command_text(*c));
    }
    crate::literal::string_of(&out)
}

} // verus!
