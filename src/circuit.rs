//! Counting leading zeros as solver commands. SMT-LIB has no such operator,
//! so the count is declared and pinned down by a binary search over the
//! halves of the value, one round of declarations and assertions per halving.
use vstd::prelude::*;
use crate::literal::{decimal_chars, string_of, two_pow};
use crate::smt::{BoolTerm, BvOp, BvTerm, Command, bool_eval, bv_eval, satisfies_all};

verus! {

/// Number of significant bits of `v`.
pub open spec fn bitlen(v: nat) -> nat
    decreases v,
{
    if v == 0 {
        0
    } else {
        1 + bitlen(v / 2)
    }
}

/// Leading zeros of `v` as a `w`-bit value.
pub open spec fn leading_zeros(v: nat, w: nat) -> int {
    w - bitlen(v)
}

/// The widths the circuit supports: powers of two up to 64.
pub open spec fn clz_width(w: nat) -> bool {
    w == 1 || w == 2 || w == 4 || w == 8 || w == 16 || w == 32 || w == 64
}

pub proof fn lemma_two_pow_add(a: nat, b: nat)
    ensures
        two_pow(a + b) == two_pow(a) * two_pow(b),
    decreases a,
{
    if a > 0 {
        let a1 = (a - 1) as nat;
        lemma_two_pow_add(a1, b);
        let p = two_pow(a1);
        let q = two_pow(b);
        assert(a + b == (a1 + b) + 1);
        assert(two_pow(a + b) == 2 * two_pow(a1 + b));
        assert(two_pow(a) == 2 * p);
        assert(2 * (p * q) == (2 * p) * q) by (nonlinear_arith);
    } else {
        assert(two_pow(0) == 1);
        assert(a + b == b);
    }
}

proof fn lemma_two_pow_pos(a: nat)
    ensures
        two_pow(a) >= 1,
    decreases a,
{
    if a > 0 {
        lemma_two_pow_pos((a - 1) as nat);
    }
}

/// A value fits in `r` bits exactly when it has at most `r` significant bits.
pub proof fn lemma_bitlen_bound(v: nat, r: nat)
    ensures
        v < two_pow(r) <==> bitlen(v) <= r,
    decreases r,
{
    if r > 0 {
        lemma_bitlen_bound(v / 2, (r - 1) as nat);
        lemma_two_pow_pos((r - 1) as nat);
    }
}

/// Shifting right by `s` drops `s` significant bits, or all of them.
pub proof fn lemma_bitlen_shift(v: nat, s: nat)
    ensures
        v / two_pow(s) != 0 ==> bitlen(v) == s + bitlen(v / two_pow(s)),
        v / two_pow(s) == 0 <==> v < two_pow(s),
    decreases s,
{
    lemma_two_pow_pos(s);
    let d = two_pow(s);
    assert(v == d * (v / d) + v % d) by {
        vstd::arithmetic::div_mod::lemma_fundamental_div_mod(v as int, d as int);
    }
    assert(v % d < d) by {
        vstd::arithmetic::div_mod::lemma_mod_pos_bound(v as int, d as int);
    }
    if v / d != 0 {
        assert(d * (v / d) >= d) by (nonlinear_arith)
            requires v / d >= 1, d >= 1;
    }
    if v < d {
        assert(v / d == 0) by (nonlinear_arith)
            requires v == d * (v / d) + v % d, v % d >= 0, v < d, d >= 1, v / d >= 0;
    }
    if v == 0 {
        assert(v / d == 0) by (nonlinear_arith)
            requires v == 0, d >= 1;
    } else {
        assert(bitlen(v) == 1 + bitlen(v / 2));
    }
    if s > 0 {
        let h = two_pow((s - 1) as nat);
        lemma_two_pow_pos((s - 1) as nat);
        assert(v / d == (v / 2) / h) by {
            vstd::arithmetic::div_mod::lemma_div_denominator(v as int, 2, h as int);
        }
        lemma_bitlen_shift(v / 2, (s - 1) as nat);
        if v / d != 0 {
            assert(v != 0);
            assert(bitlen(v) == 1 + bitlen(v / 2));
            assert(bitlen(v / 2) == (s - 1) + bitlen((v / 2) / h));
        }
    } else {
        assert(d == 1);
        assert(v / 1 == v);
    }
}

/// One round of the search on a value of `2s` bits: when its high half is
/// not zero the count continues on the high half; else `s` zeros are counted
/// and the search continues on the low half.
pub proof fn lemma_clz_round(x: nat, s: nat)
    requires
        s >= 1,
        x < two_pow(2 * s),
    ensures
        x / two_pow(s) < two_pow(s),
        x / two_pow(s) != 0 ==> leading_zeros(x, 2 * s) == leading_zeros(x / two_pow(s), s),
        x / two_pow(s) == 0 ==> x < two_pow(s) && leading_zeros(x, 2 * s) == s + leading_zeros(x, s),
{
    lemma_two_pow_add(s, s);
    lemma_two_pow_pos(s);
    let d = two_pow(s);
    let y = x / d;
    assert(x == d * y + x % d) by {
        vstd::arithmetic::div_mod::lemma_fundamental_div_mod(x as int, d as int);
    }
    assert(x % d >= 0) by {
        vstd::arithmetic::div_mod::lemma_mod_pos_bound(x as int, d as int);
    }
    if y >= d {
        assert(d * y >= d * d) by (nonlinear_arith)
            requires y >= d, d >= 1;
    }
    lemma_bitlen_shift(x, s);
}

/// Name of the circuit's value of kind `tag` in round `k`, for operand
/// `x`: the operand's name extended by `.`, the tag, the round and the id.
/// Being longer than `x`, it is never `x`.
pub open spec fn clz_name_text(x: Seq<char>, tag: char, k: nat, id: nat) -> Seq<char> {
    x + seq!['.', tag] + crate::literal::decimal_digits(k) + seq!['_'] + crate::literal::decimal_digits(id)
}

fn clz_name(x: &String, tag: char, k: usize, id: usize) -> (r: String)
    ensures
        r@ == clz_name_text(x@, tag, k as nat, id as nat),
{
    let mut cs: Vec<char> = Vec::new();
    crate::smt::push_str(&mut cs, x.as_str());
    cs.push('.');
    cs.push(tag);
    let digits = decimal_chars(k as u128);
    crate::smt::push_chars(&mut cs, &digits);
    cs.push('_');
    let digits = decimal_chars(id as u128);
    crate::smt::push_chars(&mut cs, &digits);
    proof {
        assert(cs@ =~= clz_name_text(x@, tag, k as nat, id as nat));
    }
    string_of(&cs)
}

/// Distinct tags or rounds give distinct names.
pub proof fn lemma_clz_name_injective(x: Seq<char>, t1: char, k1: nat, t2: char, k2: nat, id: nat)
    requires
        clz_name_text(x, t1, k1, id) == clz_name_text(x, t2, k2, id),
    ensures
        t1 == t2 && k1 == k2,
{
    let s1 = clz_name_text(x, t1, k1, id);
    let s2 = clz_name_text(x, t2, k2, id);
    let o = x.len() as int;
    assert(s1[o + 1] == t1 && s2[o + 1] == t2);
    let d1 = crate::literal::decimal_digits(k1);
    let d2 = crate::literal::decimal_digits(k2);
    crate::literal::lemma_decimal_digits(k1);
    crate::literal::lemma_decimal_digits(k2);
    let u1 = s1.skip(o + 2);
    let u2 = s2.skip(o + 2);
    assert(u1 =~= d1 + seq!['_'] + crate::literal::decimal_digits(id));
    assert(u2 =~= d2 + seq!['_'] + crate::literal::decimal_digits(id));
    assert(u1 == u2);
    if d1.len() < d2.len() {
        assert(u1[d1.len() as int] == '_');
        assert(digit_value_lt(d2, d1.len() as int));
        assert(false);
    } else if d2.len() < d1.len() {
        assert(u2[d2.len() as int] == '_');
        assert(digit_value_lt(d1, d2.len() as int));
        assert(false);
    }
    assert(d1 =~= u1.take(d1.len() as int));
    assert(d2 =~= u2.take(d2.len() as int));
}

spec fn digit_value_lt(d: Seq<char>, i: int) -> bool {
    crate::literal::digit_value(d[i]) < 10
}

/// Names a bit-vector term reads.
pub open spec fn bv_names(t: BvTerm) -> Set<Seq<char>>
    decreases t,
{
    match t {
        BvTerm::Var(n) => set![n@],
        BvTerm::Lit(_, _) => Set::empty(),
        BvTerm::Binary(_, a, b) => bv_names(*a).union(bv_names(*b)),
    }
}

/// Names a boolean term reads.
pub open spec fn bool_names(b: BoolTerm) -> Set<Seq<char>>
    decreases b,
{
    match b {
        BoolTerm::Eq(x, y) => bv_names(x).union(bv_names(y)),
        BoolTerm::Not(c) => bool_names(*c),
        BoolTerm::Ite(c, t, e) => bool_names(*c).union(bool_names(*t)).union(bool_names(*e)),
    }
}

proof fn lemma_bv_agree(t: BvTerm, e1: spec_fn(Seq<char>) -> nat, e2: spec_fn(Seq<char>) -> nat, w: nat)
    requires
        forall|n: Seq<char>| bv_names(t).contains(n) ==> e1(n) == e2(n),
    ensures
        bv_eval(t, e1, w) == bv_eval(t, e2, w),
    decreases t,
{
    match t {
        BvTerm::Var(n) => {
            assert(bv_names(t).contains(n@));
        },
        BvTerm::Lit(_, _) => {},
        BvTerm::Binary(_, a, b) => {
            assert forall|n: Seq<char>| bv_names(*a).contains(n) implies e1(n) == e2(n) by {
                assert(bv_names(t).contains(n));
            }
            assert forall|n: Seq<char>| bv_names(*b).contains(n) implies e1(n) == e2(n) by {
                assert(bv_names(t).contains(n));
            }
            lemma_bv_agree(*a, e1, e2, w);
            lemma_bv_agree(*b, e1, e2, w);
        },
    }
}

proof fn lemma_bool_agree(b: BoolTerm, e1: spec_fn(Seq<char>) -> nat, e2: spec_fn(Seq<char>) -> nat, w: nat)
    requires
        forall|n: Seq<char>| bool_names(b).contains(n) ==> e1(n) == e2(n),
    ensures
        bool_eval(b, e1, w) == bool_eval(b, e2, w),
    decreases b,
{
    match b {
        BoolTerm::Eq(x, y) => {
            assert forall|n: Seq<char>| bv_names(x).contains(n) implies e1(n) == e2(n) by {
                assert(bool_names(b).contains(n));
            }
            assert forall|n: Seq<char>| bv_names(y).contains(n) implies e1(n) == e2(n) by {
                assert(bool_names(b).contains(n));
            }
            lemma_bv_agree(x, e1, e2, w);
            lemma_bv_agree(y, e1, e2, w);
        },
        BoolTerm::Not(c) => {
            assert forall|n: Seq<char>| bool_names(*c).contains(n) implies e1(n) == e2(n) by {
                assert(bool_names(b).contains(n));
            }
            lemma_bool_agree(*c, e1, e2, w);
        },
        BoolTerm::Ite(c, t, e) => {
            assert forall|n: Seq<char>| bool_names(*c).contains(n) implies e1(n) == e2(n) by {
                assert(bool_names(b).contains(n));
            }
            assert forall|n: Seq<char>| bool_names(*t).contains(n) implies e1(n) == e2(n) by {
                assert(bool_names(b).contains(n));
            }
            assert forall|n: Seq<char>| bool_names(*e).contains(n) implies e1(n) == e2(n) by {
                assert(bool_names(b).contains(n));
            }
            lemma_bool_agree(*c, e1, e2, w);
            lemma_bool_agree(*t, e1, e2, w);
            lemma_bool_agree(*e, e1, e2, w);
        },
    }
}

/// Every command of `cmds` reads or declares names of `used` only.
pub open spec fn within(cmds: Seq<Command>, used: Set<Seq<char>>) -> bool {
    forall|k: int| 0 <= k < cmds.len() ==> match #[trigger] cmds[k] {
        Command::Assert(b) => bool_names(b).subset_of(used),
        Command::Declare(n, _) => used.contains(n@),
    }
}

/// The names `cmds` declare are distinct and differ from `x`.
pub open spec fn fresh_declarations(cmds: Seq<Command>, x: Seq<char>) -> bool {
    forall|i: int, j: int| 0 <= i < cmds.len() && 0 <= j < cmds.len() ==> match (#[trigger] cmds[i], #[trigger] cmds[j]) {
        (Command::Declare(a, _), Command::Declare(b, _)) => (i != j ==> a@ != b@) && a@ != x
           ,
        _ => true,
    }
}

proof fn lemma_sat_update(cmds: Seq<Command>, used: Set<Seq<char>>, e1: spec_fn(Seq<char>) -> nat, e2: spec_fn(Seq<char>) -> nat, w: nat)
    requires
        within(cmds, used),
        satisfies_all(cmds, e1, w),
        forall|n: Seq<char>| used.contains(n) ==> e1(n) == e2(n),
    ensures
        satisfies_all(cmds, e2, w),
{
    assert forall|k: int| 0 <= k < cmds.len() implies match #[trigger] cmds[k] {
        Command::Assert(b) => bool_eval(b, e2, w),
        _ => true,
    } by {
        match cmds[k] {
            Command::Assert(b) => {
                lemma_bool_agree(b, e1, e2, w);
            },
            _ => {},
        }
    }
}

/// What the commands so far establish of every model: the value named `cx`
/// fits in `rem` bits, and the count named `cr` plus its leading zeros in
/// `rem` bits is the count of `x0` in `w` bits.
pub open spec fn search_state(env: spec_fn(Seq<char>) -> nat, x0: Seq<char>, cx: Seq<char>, cr: Seq<char>, rem: nat, w: nat) -> bool {
    let x = env(cx) % two_pow(w);
    let r = env(cr) % two_pow(w);
    &&& x < two_pow(rem)
    &&& r + leading_zeros(x, rem) == leading_zeros(env(x0) % two_pow(w), w)
    &&& r + rem <= w
}

proof fn lemma_satisfies_prefix(cmds: Seq<Command>, more: Seq<Command>, env: spec_fn(Seq<char>) -> nat, w: nat)
    requires
        satisfies_all(cmds + more, env, w),
    ensures
        satisfies_all(cmds, env, w),
        forall|k: int| 0 <= k < more.len() ==> match #[trigger] more[k] {
            Command::Assert(b) => bool_eval(b, env, w),
            _ => true,
        },
{
    assert forall|k: int| 0 <= k < cmds.len() implies match #[trigger] cmds[k] {
        Command::Assert(b) => bool_eval(b, env, w),
        _ => true,
    } by {
        assert((cmds + more)[k] == cmds[k]);
    }
    assert forall|k: int| 0 <= k < more.len() implies match #[trigger] more[k] {
        Command::Assert(b) => bool_eval(b, env, w),
        _ => true,
    } by {
        assert((cmds + more)[cmds.len() + k] == more[k]);
    }
}

fn var(n: &String) -> (r: BvTerm)
    ensures
        r == BvTerm::Var(*n),
{
    BvTerm::Var(n.clone())
}

/// `c` declares `n` with width `w`.
pub open spec fn declares(c: Command, n: Seq<char>, w: usize) -> bool {
    match c {
        Command::Declare(m, ww) => m@ == n && ww == w,
        _ => false,
    }
}

spec fn env_any() -> spec_fn(Seq<char>) -> nat {
    |n: Seq<char>| 0nat
}

/// Every name of `used` is `x` or a name of a round before `k`.
pub open spec fn used_names(used: Set<Seq<char>>, x: Seq<char>, k: nat, id: nat) -> bool {
    forall|n: Seq<char>| #[trigger] used.contains(n) ==> n == x || exists|t: char, j: nat|
        (t == 'r' || t == 'y' || t == 'x') && j < k && n == #[trigger] clz_name_text(x, t, j, id)
}

/// `c` declares name `n`.
pub open spec fn declares_name(c: Command, n: Seq<char>) -> bool {
    match c {
        Command::Declare(m, _) => m@ == n,
        _ => false,
    }
}

/// Some command of `cmds` declares `n`.
pub open spec fn declared(cmds: Seq<Command>, n: Seq<char>) -> bool {
    exists|k: int| 0 <= k < cmds.len() && #[trigger] declares_name(cmds[k], n)
}

/// `env2` is a model of `cmds` that agrees with `env` on `x` and on every
/// name `cmds` does not declare.
pub open spec fn model_from(cmds: Seq<Command>, env: spec_fn(Seq<char>) -> nat, env2: spec_fn(Seq<char>) -> nat, x: Seq<char>, w: nat) -> bool {
    &&& env2(x) == env(x)
    &&& forall|n: Seq<char>| !declared(cmds, n) ==> env2(n) == env(n)
    &&& satisfies_all(cmds, env2, w)
}

/// Every assignment `env` extends to a model of `cmds` by giving values to
/// the names `cmds` declares alone.
pub open spec fn satisfiable_from(cmds: Seq<Command>, env: spec_fn(Seq<char>) -> nat, x: Seq<char>, w: nat) -> bool {
    exists|env2: spec_fn(Seq<char>) -> nat| #[trigger] model_from(cmds, env, env2, x, w)
}

proof fn lemma_declared_prefix(before: Seq<Command>, more: Seq<Command>, n: Seq<char>)
    requires
        declared(before, n),
    ensures
        declared(before + more, n),
{
    let k = choose|k: int| 0 <= k < before.len() && #[trigger] declares_name(before[k], n);
    assert((before + more)[k] == before[k]);
}

/// `n` is `x` followed by `.` and more.
pub open spec fn extends_name(x: Seq<char>, n: Seq<char>) -> bool {
    &&& n.len() > x.len()
    &&& n.take(x.len() as int) == x
    &&& n[x.len() as int] == '.'
}

/// Every name `cmds` reads is `x` or extends it, and every name it declares
/// extends `x`.
pub open spec fn names_within(cmds: Seq<Command>, x: Seq<char>) -> bool {
    forall|k: int| 0 <= k < cmds.len() ==> match #[trigger] cmds[k] {
        Command::Assert(b) => forall|n: Seq<char>| bool_names(b).contains(n) ==> n == x || extends_name(x, n),
        Command::Declare(m, _) => extends_name(x, m@),
    }
}

proof fn lemma_names_within(cmds: Seq<Command>, used: Set<Seq<char>>, x: Seq<char>)
    requires
        within(cmds, used),
        forall|n: Seq<char>| #[trigger] used.contains(n) ==> n == x || extends_name(x, n),
        forall|k: int| 0 <= k < cmds.len() ==> match #[trigger] cmds[k] {
            Command::Declare(m, _) => m@ != x,
            _ => true,
        },
    ensures
        names_within(cmds, x),
{
    assert forall|k: int| 0 <= k < cmds.len() implies match #[trigger] cmds[k] {
        Command::Assert(b) => forall|n: Seq<char>| bool_names(b).contains(n) ==> n == x || extends_name(x, n),
        Command::Declare(m, _) => extends_name(x, m@),
    } by {
        match cmds[k] {
            Command::Assert(b) => {
                assert forall|n: Seq<char>| bool_names(b).contains(n) implies n == x || extends_name(x, n) by {
                    assert(used.contains(n));
                }
            },
            Command::Declare(m, _) => {
                assert(used.contains(m@));
            },
        }
    }
}

proof fn lemma_clz_name_shape(x: Seq<char>, t: char, k: nat, id: nat)
    ensures
        clz_name_text(x, t, k, id).len() > x.len(),
        clz_name_text(x, t, k, id) != x,
        extends_name(x, clz_name_text(x, t, k, id)),
{
    assert(clz_name_text(x, t, k, id).take(x.len() as int) =~= x);
}

/// Names of `used` are `x` or extend it.
proof fn lemma_used_extend(used: Set<Seq<char>>, x: Seq<char>, k: nat, id: nat)
    requires
        used_names(used, x, k, id),
    ensures
        forall|n: Seq<char>| #[trigger] used.contains(n) ==> n == x || extends_name(x, n),
{
    assert forall|n: Seq<char>| #[trigger] used.contains(n) implies n == x || extends_name(x, n) by {
        if n != x {
            let (t, j) = choose|t: char, j: nat| (t == 'r' || t == 'y' || t == 'x') && j < k && n == #[trigger] clz_name_text(x, t, j, id);
            lemma_clz_name_shape(x, t, j, id);
        }
    }
}

/// A name of round `k` is not among those used before it.
proof fn lemma_fresh(used: Set<Seq<char>>, x: Seq<char>, t: char, k: nat, id: nat)
    requires
        used_names(used, x, k, id),
    ensures
        !used.contains(clz_name_text(x, t, k, id)),
        clz_name_text(x, t, k, id) != x,
{
    lemma_clz_name_shape(x, t, k, id);
    let n = clz_name_text(x, t, k, id);
    if used.contains(n) {
        if n != x {
            let (t2, j) = choose|t2: char, j: nat| (t2 == 'r' || t2 == 'y' || t2 == 'x') && j < k && n == #[trigger] clz_name_text(x, t2, j, id);
            lemma_clz_name_injective(x, t, k, t2, j, id);
        }
    }
}

proof fn lemma_sat_extend(before: Seq<Command>, more: Seq<Command>, env: spec_fn(Seq<char>) -> nat, w: nat)
    requires
        satisfies_all(before, env, w),
        forall|k: int| 0 <= k < more.len() ==> match #[trigger] more[k] {
            Command::Assert(b) => bool_eval(b, env, w),
            _ => true,
        },
    ensures
        satisfies_all(before + more, env, w),
{
    let all = before + more;
    assert forall|k: int| 0 <= k < all.len() implies match #[trigger] all[k] {
        Command::Assert(b) => bool_eval(b, env, w),
        _ => true,
    } by {
        if k < before.len() {
            assert(all[k] == before[k]);
        } else {
            assert(all[k] == more[k - before.len()]);
        }
    }
}

proof fn lemma_within_extend(before: Seq<Command>, more: Seq<Command>, used: Set<Seq<char>>, used2: Set<Seq<char>>)
    requires
        within(before, used),
        used.subset_of(used2),
        within(more, used2),
    ensures
        within(before + more, used2),
{
    let all = before + more;
    assert forall|k: int| 0 <= k < all.len() implies match #[trigger] all[k] {
        Command::Assert(b) => bool_names(b).subset_of(used2),
        Command::Declare(n, _) => used2.contains(n@),
    } by {
        if k < before.len() {
            assert(all[k] == before[k]);
        } else {
            assert(all[k] == more[k - before.len()]);
        }
    }
}

/// Declarations of fresh names keep the declarations distinct.
proof fn lemma_fresh_extend(before: Seq<Command>, more: Seq<Command>, used: Set<Seq<char>>, x: Seq<char>)
    requires
        fresh_declarations(before, x),
        within(before, used),
        fresh_declarations(more, x),
        forall|k: int| 0 <= k < more.len() ==> match #[trigger] more[k] {
            Command::Declare(n, _) => !used.contains(n@),
            _ => true,
        },
    ensures
        fresh_declarations(before + more, x),
{
    let all = before + more;
    assert forall|i: int, j: int| 0 <= i < all.len() && 0 <= j < all.len() implies match (#[trigger] all[i], #[trigger] all[j]) {
        (Command::Declare(a, _), Command::Declare(b, _)) => (i != j ==> a@ != b@) && a@ != x,
        _ => true,
    } by {
        let bl = before.len() as int;
        if i < bl {
            assert(all[i] == before[i]);
        } else {
            assert(all[i] == more[i - bl]);
        }
        if j < bl {
            assert(all[j] == before[j]);
        } else {
            assert(all[j] == more[j - bl]);
        }
        if i < bl && j < bl {
            assert(match (before[i], before[j]) {
                (Command::Declare(a, _), Command::Declare(b, _)) => (i != j ==> a@ != b@) && a@ != x,
                _ => true,
            });
        } else if i >= bl && j >= bl {
            assert(match (more[i - bl], more[j - bl]) {
                (Command::Declare(a, _), Command::Declare(b, _)) => (i - bl != j - bl ==> a@ != b@) && a@ != x,
                _ => true,
            });
        } else if i < bl {
            assert(match before[i] { Command::Declare(n, _) => used.contains(n@), _ => true });
            assert(match more[j - bl] { Command::Declare(n, _) => !used.contains(n@), _ => true });
            assert(match (before[i], before[i]) {
                (Command::Declare(a, _), Command::Declare(b, _)) => a@ != x,
                _ => true,
            });
        } else {
            assert(match before[j] { Command::Declare(n, _) => used.contains(n@), _ => true });
            assert(match more[i - bl] { Command::Declare(n, _) => !used.contains(n@), _ => true });
            assert(match (more[i - bl], more[i - bl]) {
                (Command::Declare(a, _), Command::Declare(b, _)) => a@ != x,
                _ => true,
            });
        }
    }
}

/// Commands that declare and pin down the number of leading zeros of the
/// `w`-bit value named `x`; returns them and the name of the count. The
/// declared names are fresh and distinct; for every value of `x` the
/// commands have a model, and in every model the count is the number of
/// leading zeros.
pub fn encode_clz(x: &String, w: usize, id: usize) -> (r: (Vec<Command>, String))
    requires
        clz_width(w as nat),
    ensures
        forall|env: spec_fn(Seq<char>) -> nat| #[trigger] satisfies_all(r.0@, env, w as nat)
            ==> env(r.1@) % two_pow(w as nat) == leading_zeros(env(x@) % two_pow(w as nat), w as nat),
        forall|env: spec_fn(Seq<char>) -> nat| #[trigger] satisfiable_from(r.0@, env, x@, w as nat),
        fresh_declarations(r.0@, x@),
        names_within(r.0@, x@),
        r.1@ != x@,
        exists|k: int| 0 <= k < r.0@.len() && #[trigger] declares(r.0@[k], r.1@, w),
{
    let ghost wn = w as nat;
    let ghost idn = id as nat;
    let ghost p = two_pow(wn);
    proof {
        crate::smt::lemma_width_fits(wn);
        vstd::arithmetic::div_mod::lemma_small_mod(0, two_pow(wn));
    }
    let mut cmds: Vec<Command> = Vec::new();
    let r0 = clz_name(x, 'r', 0, id);
    let init = BoolTerm::Eq(var(&r0), BvTerm::Lit(w, 0));
    let ghost g_init = init;
    cmds.push(Command::Declare(r0.clone(), w));
    cmds.push(Command::Assert(init));
    let mut cur_x = x.clone();
    let mut cur_r = r0;
    let mut rem: usize = w;
    let mut k: usize = 1;
    let ghost mut used: Set<Seq<char>> = set![x@, r0@];
    proof {
        lemma_clz_name_shape(x@, 'r', 0, idn);
        assert forall|env: spec_fn(Seq<char>) -> nat| #[trigger] satisfies_all(cmds@, env, wn)
            implies search_state(env, x@, cur_x@, cur_r@, rem as nat, wn) by {
            assert(match cmds@[1] {
                Command::Assert(b) => bool_eval(b, env, wn),
                _ => true,
            });
            vstd::arithmetic::div_mod::lemma_mod_pos_bound(env(x@) as int, two_pow(wn) as int);
        }
        assert forall|env: spec_fn(Seq<char>) -> nat| #[trigger] satisfiable_from(cmds@, env, x@, wn) by {
            let env2 = |n: Seq<char>| if n == r0@ { 0nat } else { env(n) };
            assert(bv_eval(BvTerm::Var(r0), env2, wn) == 0);
            assert(bool_eval(g_init, env2, wn));
            assert(match cmds@[1] { Command::Assert(b) => bool_eval(b, env2, wn), _ => true });
            assert(satisfies_all(cmds@, env2, wn));
            assert(declares_name(cmds@[0], r0@));
            assert(model_from(cmds@, env, env2, x@, wn));
        }
        assert(within(cmds@, used)) by {
            assert(bool_names(g_init) =~= set![r0@]);
        }
        assert(used_names(used, x@, 1, idn)) by {
            assert forall|n: Seq<char>| #[trigger] used.contains(n) implies n == x@ || exists|t: char, j: nat|
                (t == 'r' || t == 'y' || t == 'x') && j < 1 && n == #[trigger] clz_name_text(x@, t, j, idn) by {
                if n != x@ {
                    assert(n == clz_name_text(x@, 'r', 0, idn));
                }
            }
        }
        assert(fresh_declarations(cmds@, x@));
    }
    while rem > 1
        invariant
            clz_width(wn),
            wn == w as nat,
            idn == id as nat,
            p == two_pow(wn),
            w < p,
            clz_width(rem as nat),
            1 <= rem <= w,
            k + rem <= w + 1,
            1 <= k,
            forall|env: spec_fn(Seq<char>) -> nat| #[trigger] satisfies_all(cmds@, env, wn)
                ==> search_state(env, x@, cur_x@, cur_r@, rem as nat, wn),
            forall|env: spec_fn(Seq<char>) -> nat| #[trigger] satisfiable_from(cmds@, env, x@, wn),
            used.contains(x@),
            used.contains(cur_x@),
            used.contains(cur_r@),
            within(cmds@, used),
            used_names(used, x@, k as nat, idn),
            fresh_declarations(cmds@, x@),
        decreases rem,
    {
        let s = rem / 2;
        let y = clz_name(x, 'y', k, id);
        let xn = clz_name(x, 'x', k, id);
        let rn = clz_name(x, 'r', k, id);
        let ghost before = cmds@;
        let shifted = BoolTerm::Eq(
            var(&y),
            BvTerm::Binary(BvOp::Lshr, Box::new(var(&cur_x)), Box::new(BvTerm::Lit(w, s as u128))),
        );
        let count = BoolTerm::Ite(
            Box::new(BoolTerm::Not(Box::new(BoolTerm::Eq(var(&y), BvTerm::Lit(w, 0))))),
            Box::new(BoolTerm::Eq(var(&rn), var(&cur_r))),
            Box::new(BoolTerm::Eq(
                var(&rn),
                BvTerm::Binary(BvOp::Add, Box::new(var(&cur_r)), Box::new(BvTerm::Lit(w, s as u128))),
            )),
        );
        let half = BoolTerm::Ite(
            Box::new(BoolTerm::Not(Box::new(BoolTerm::Eq(var(&y), BvTerm::Lit(w, 0))))),
            Box::new(BoolTerm::Eq(var(&xn), var(&y))),
            Box::new(BoolTerm::Eq(var(&xn), var(&cur_x))),
        );
        let ghost g_shifted = shifted;
        let ghost g_count = count;
        let ghost g_half = half;
        cmds.push(Command::Declare(y.clone(), w));
        cmds.push(Command::Declare(xn.clone(), w));
        cmds.push(Command::Declare(rn.clone(), w));
        cmds.push(Command::Assert(shifted));
        cmds.push(Command::Assert(count));
        cmds.push(Command::Assert(half));
        proof {
            let more = cmds@.subrange(before.len() as int, cmds@.len() as int);
            assert(cmds@ =~= before + more);
            assert(more[0] == Command::Declare(y, w));
            assert(more[1] == Command::Declare(xn, w));
            assert(more[2] == Command::Declare(rn, w));
            assert(more[3] == Command::Assert(g_shifted));
            assert(more[4] == Command::Assert(g_count));
            assert(more[5] == Command::Assert(g_half));
            let kn = k as nat;
            lemma_fresh(used, x@, 'y', kn, idn);
            lemma_fresh(used, x@, 'x', kn, idn);
            lemma_fresh(used, x@, 'r', kn, idn);
            lemma_clz_name_shape(x@, 'y', kn, idn);
            lemma_clz_name_shape(x@, 'x', kn, idn);
            lemma_clz_name_shape(x@, 'r', kn, idn);
            if y@ == xn@ {
                lemma_clz_name_injective(x@, 'y', kn, 'x', kn, idn);
            }
            if y@ == rn@ {
                lemma_clz_name_injective(x@, 'y', kn, 'r', kn, idn);
            }
            if xn@ == rn@ {
                lemma_clz_name_injective(x@, 'x', kn, 'r', kn, idn);
            }
            assert(cur_x@ != y@ && cur_x@ != xn@ && cur_x@ != rn@);
            assert(cur_r@ != y@ && cur_r@ != xn@ && cur_r@ != rn@);
            let used2 = used.insert(y@).insert(xn@).insert(rn@);
            let zero = BvTerm::Lit(w, 0);
            let lit_s = BvTerm::Lit(w, s as u128);
            let sv = s as nat;
            vstd::arithmetic::div_mod::lemma_small_mod(sv, p);
            assert(bv_eval(lit_s, env_any(), wn) == sv);
            // Soundness: every model keeps the search state.
            assert forall|env: spec_fn(Seq<char>) -> nat| #[trigger] satisfies_all(cmds@, env, wn)
                implies search_state(env, x@, xn@, rn@, sv, wn) by {
                lemma_satisfies_prefix(before, more, env, wn);
                assert(search_state(env, x@, cur_x@, cur_r@, rem as nat, wn));
                let xv = env(cur_x@) % p;
                let rv = env(cur_r@) % p;
                let yv = env(y@) % p;
                assert(bool_eval(g_shifted, env, wn));
                assert(bool_eval(g_count, env, wn));
                assert(bool_eval(g_half, env, wn));
                assert(bv_eval(lit_s, env, wn) == sv);
                assert(bv_eval(zero, env, wn) == 0);
                assert(bv_eval(BvTerm::Var(cur_x), env, wn) == xv);
                assert(bv_eval(BvTerm::Var(cur_r), env, wn) == rv);
                assert(bv_eval(BvTerm::Var(y), env, wn) == yv);
                assert(yv == xv / two_pow(sv));
                let xnv = env(xn@) % p;
                let rnv = env(rn@) % p;
                assert(bv_eval(BvTerm::Var(xn), env, wn) == xnv);
                assert(bv_eval(BvTerm::Var(rn), env, wn) == rnv);
                let is_zero = BoolTerm::Eq(BvTerm::Var(y), BvTerm::Lit(w, 0));
                assert(bool_eval(is_zero, env, wn) == (yv == 0));
                assert(bool_eval(BoolTerm::Not(Box::new(is_zero)), env, wn) == (yv != 0));
                if yv != 0 {
                    assert(bool_eval(BoolTerm::Eq(BvTerm::Var(xn), BvTerm::Var(y)), env, wn));
                    assert(bool_eval(BoolTerm::Eq(BvTerm::Var(rn), BvTerm::Var(cur_r)), env, wn));
                } else {
                    assert(bool_eval(BoolTerm::Eq(BvTerm::Var(xn), BvTerm::Var(cur_x)), env, wn));
                }
                assert(rem == 2 * s);
                lemma_clz_round(xv, sv);
                if yv == 0 {
                    vstd::arithmetic::div_mod::lemma_small_mod((rv + sv) as nat, p);
                    assert(bv_eval(BvTerm::Binary(BvOp::Add, Box::new(BvTerm::Var(cur_r)), Box::new(lit_s)), env, wn) == rv + sv);
                    assert(bool_eval(BoolTerm::Eq(BvTerm::Var(rn), BvTerm::Binary(BvOp::Add, Box::new(BvTerm::Var(cur_r)), Box::new(lit_s))), env, wn));
                }
            }
            // Satisfiability: extend a model of the earlier commands.
            assert forall|env: spec_fn(Seq<char>) -> nat| #[trigger] satisfiable_from(cmds@, env, x@, wn) by {
                assert(satisfiable_from(before, env, x@, wn));
                let env2 = choose|env2: spec_fn(Seq<char>) -> nat| #[trigger] model_from(before, env, env2, x@, wn);
                assert(search_state(env2, x@, cur_x@, cur_r@, rem as nat, wn));
                let xv = env2(cur_x@) % p;
                let rv = env2(cur_r@) % p;
                assert(rem == 2 * s);
                lemma_clz_round(xv, sv);
                let yv = xv / two_pow(sv);
                let xnv = if yv != 0 { yv } else { xv };
                let rnv: nat = if yv != 0 { rv } else { (rv + sv) % p };
                let env3 = |n: Seq<char>| if n == y@ { yv } else if n == xn@ { xnv } else if n == rn@ { rnv } else { env2(n) };
                assert forall|n: Seq<char>| used.contains(n) implies env2(n) == env3(n) by {}
                lemma_sat_update(before, used, env2, env3, wn);
                vstd::arithmetic::div_mod::lemma_mod_pos_bound(env2(cur_x@) as int, p as int);
                vstd::arithmetic::div_mod::lemma_mod_pos_bound(env2(cur_r@) as int, p as int);
                vstd::arithmetic::div_mod::lemma_mod_pos_bound((rv + sv) as int, p as int);
                crate::circuit::lemma_two_pow_pos(sv);
                assert(yv <= xv) by {
                    vstd::arithmetic::div_mod::lemma_div_is_ordered_by_denominator(xv as int, 1, two_pow(sv) as int);
                }
                vstd::arithmetic::div_mod::lemma_small_mod(yv, p);
                vstd::arithmetic::div_mod::lemma_small_mod(xnv, p);
                vstd::arithmetic::div_mod::lemma_small_mod(rnv, p);
                vstd::arithmetic::div_mod::lemma_small_mod(xv, p);
                vstd::arithmetic::div_mod::lemma_small_mod(rv, p);
                assert(bv_eval(lit_s, env3, wn) == sv);
                assert(bv_eval(zero, env3, wn) == 0);
                assert(bv_eval(BvTerm::Var(cur_x), env3, wn) == xv);
                assert(bv_eval(BvTerm::Var(cur_r), env3, wn) == rv);
                assert(bv_eval(BvTerm::Var(y), env3, wn) == yv);
                assert(bv_eval(BvTerm::Var(xn), env3, wn) == xnv);
                assert(bv_eval(BvTerm::Var(rn), env3, wn) == rnv);
                assert(bv_eval(BvTerm::Binary(BvOp::Lshr, Box::new(BvTerm::Var(cur_x)), Box::new(lit_s)), env3, wn) == yv);
                assert(bool_eval(g_shifted, env3, wn));
                let is_zero = BoolTerm::Eq(BvTerm::Var(y), BvTerm::Lit(w, 0));
                assert(bool_eval(is_zero, env3, wn) == (yv == 0));
                assert(bool_eval(BoolTerm::Not(Box::new(is_zero)), env3, wn) == (yv != 0));
                if yv != 0 {
                    assert(bool_eval(BoolTerm::Eq(BvTerm::Var(rn), BvTerm::Var(cur_r)), env3, wn));
                    assert(bool_eval(BoolTerm::Eq(BvTerm::Var(xn), BvTerm::Var(y)), env3, wn));
                } else {
                    assert(bv_eval(BvTerm::Binary(BvOp::Add, Box::new(BvTerm::Var(cur_r)), Box::new(lit_s)), env3, wn) == rnv);
                    assert(bool_eval(BoolTerm::Eq(BvTerm::Var(rn), BvTerm::Binary(BvOp::Add, Box::new(BvTerm::Var(cur_r)), Box::new(lit_s))), env3, wn));
                    assert(bool_eval(BoolTerm::Eq(BvTerm::Var(xn), BvTerm::Var(cur_x)), env3, wn));
                }
                assert(bool_eval(g_count, env3, wn));
                assert(bool_eval(g_half, env3, wn));
                lemma_sat_extend(before, more, env3, wn);
                assert(env3(x@) == env(x@));
                assert(declares_name(cmds@[before.len() as int], y@));
                assert(declares_name(cmds@[before.len() as int + 1], xn@));
                assert(declares_name(cmds@[before.len() as int + 2], rn@));
                assert forall|n: Seq<char>| !declared(cmds@, n) implies env3(n) == env(n) by {
                    if declared(before, n) {
                        lemma_declared_prefix(before, more, n);
                    }
                }
                assert(model_from(cmds@, env, env3, x@, wn));
            }
            // Names.
            let vy = BvTerm::Var(y);
            let vx = BvTerm::Var(cur_x);
            let vr = BvTerm::Var(cur_r);
            let vxn = BvTerm::Var(xn);
            let vrn = BvTerm::Var(rn);
            assert(bv_names(vy) =~= set![y@]);
            assert(bv_names(vx) =~= set![cur_x@]);
            assert(bv_names(vr) =~= set![cur_r@]);
            assert(bv_names(vxn) =~= set![xn@]);
            assert(bv_names(vrn) =~= set![rn@]);
            assert(bv_names(lit_s) =~= Set::<Seq<char>>::empty());
            assert(bv_names(zero) =~= Set::<Seq<char>>::empty());
            let shr = BvTerm::Binary(BvOp::Lshr, Box::new(vx), Box::new(lit_s));
            let add = BvTerm::Binary(BvOp::Add, Box::new(vr), Box::new(lit_s));
            assert(bv_names(shr) =~= set![cur_x@]);
            assert(bv_names(add) =~= set![cur_r@]);
            let nz = BoolTerm::Not(Box::new(BoolTerm::Eq(vy, zero)));
            assert(bool_names(BoolTerm::Eq(vy, zero)) =~= set![y@]);
            assert(bool_names(nz) =~= set![y@]);
            assert(bool_names(BoolTerm::Eq(vy, shr)) =~= set![y@, cur_x@]);
            assert(bool_names(BoolTerm::Eq(vrn, vr)) =~= set![rn@, cur_r@]);
            assert(bool_names(BoolTerm::Eq(vrn, add)) =~= set![rn@, cur_r@]);
            assert(bool_names(BoolTerm::Eq(vxn, vy)) =~= set![xn@, y@]);
            assert(bool_names(BoolTerm::Eq(vxn, vx)) =~= set![xn@, cur_x@]);
            assert(bool_names(g_shifted).subset_of(used2));
            assert(bool_names(g_count).subset_of(used2));
            assert(bool_names(g_half).subset_of(used2));
            assert(within(more, used2));
            lemma_within_extend(before, more, used, used2);
            assert(fresh_declarations(more, x@));
            lemma_fresh_extend(before, more, used, x@);
            assert forall|n: Seq<char>| #[trigger] used2.contains(n) implies n == x@ || exists|t: char, j: nat|
                (t == 'r' || t == 'y' || t == 'x') && j < kn + 1 && n == #[trigger] clz_name_text(x@, t, j, idn) by {
                if used.contains(n) && n != x@ {
                    let (t, j) = choose|t: char, j: nat| (t == 'r' || t == 'y' || t == 'x') && j < kn && n == #[trigger] clz_name_text(x@, t, j, idn);
                    assert(j < kn + 1);
                } else if n == y@ {
                    assert(n == clz_name_text(x@, 'y', kn, idn));
                } else if n == xn@ {
                    assert(n == clz_name_text(x@, 'x', kn, idn));
                } else if n == rn@ {
                    assert(n == clz_name_text(x@, 'r', kn, idn));
                }
            }
            used = used2;
        }
        cur_x = xn;
        cur_r = rn;
        rem = s;
        k = k + 1;
    }
    let f = clz_name(x, 'f', 0, id);
    let ghost before = cmds@;
    let last = BoolTerm::Ite(
        Box::new(BoolTerm::Not(Box::new(BoolTerm::Eq(var(&cur_x), BvTerm::Lit(w, 0))))),
        Box::new(BoolTerm::Eq(var(&f), var(&cur_r))),
        Box::new(BoolTerm::Eq(
            var(&f),
            BvTerm::Binary(BvOp::Add, Box::new(var(&cur_r)), Box::new(BvTerm::Lit(w, 1))),
        )),
    );
    let ghost g_last = last;
    cmds.push(Command::Declare(f.clone(), w));
    cmds.push(Command::Assert(last));
    proof {
        let more = cmds@.subrange(before.len() as int, cmds@.len() as int);
        assert(cmds@ =~= before + more);
        assert(more[0] == Command::Declare(f, w));
        assert(more[1] == Command::Assert(g_last));
        let fresh_f = !used.contains(f@);
        assert(fresh_f) by {
            lemma_clz_name_shape(x@, 'f', 0, idn);
            if used.contains(f@) {
                if f@ != x@ {
                    let (t2, j) = choose|t2: char, j: nat| (t2 == 'r' || t2 == 'y' || t2 == 'x') && j < k && f@ == #[trigger] clz_name_text(x@, t2, j, idn);
                    lemma_clz_name_injective(x@, 'f', 0, t2, j, idn);
                }
            }
        }
        lemma_clz_name_shape(x@, 'f', 0, idn);
        assert(f@ != x@);
        assert(cur_x@ != f@ && cur_r@ != f@);
        vstd::arithmetic::div_mod::lemma_small_mod(1, p);
        vstd::arithmetic::div_mod::lemma_small_mod(0, p);
        assert(two_pow(0) == 1);
        assert(two_pow(1) == 2);
        assert forall|env: spec_fn(Seq<char>) -> nat| #[trigger] satisfies_all(cmds@, env, wn)
            implies env(f@) % two_pow(wn) == leading_zeros(env(x@) % two_pow(wn), wn) by {
            lemma_satisfies_prefix(before, more, env, wn);
            assert(search_state(env, x@, cur_x@, cur_r@, 1, wn));
            let xv = env(cur_x@) % p;
            let rv = env(cur_r@) % p;
            assert(bool_eval(g_last, env, wn));
            vstd::arithmetic::div_mod::lemma_small_mod((rv + 1) as nat, p);
            assert(bv_eval(BvTerm::Lit(w, 1), env, wn) == 1);
            let fv = env(f@) % p;
            assert(bv_eval(BvTerm::Var(f), env, wn) == fv);
            let is_zero = BoolTerm::Eq(BvTerm::Var(cur_x), BvTerm::Lit(w, 0));
            assert(bv_eval(BvTerm::Lit(w, 0), env, wn) == 0);
            assert(bv_eval(BvTerm::Var(cur_x), env, wn) == xv);
            assert(bv_eval(BvTerm::Var(cur_r), env, wn) == rv);
            assert(bool_eval(is_zero, env, wn) == (xv == 0));
            assert(bool_eval(BoolTerm::Not(Box::new(is_zero)), env, wn) == (xv != 0));
            assert(xv == 0 || xv == 1);
            if xv == 0 {
                assert(bitlen(0) == 0);
                let inc = BvTerm::Binary(BvOp::Add, Box::new(BvTerm::Var(cur_r)), Box::new(BvTerm::Lit(w, 1)));
                assert(bv_eval(inc, env, wn) == rv + 1);
                assert(bool_eval(BoolTerm::Eq(BvTerm::Var(f), inc), env, wn));
            } else {
                assert(bitlen(1) == 1 + bitlen(0));
                assert(bool_eval(BoolTerm::Eq(BvTerm::Var(f), BvTerm::Var(cur_r)), env, wn));
            }
        }
        assert forall|env: spec_fn(Seq<char>) -> nat| #[trigger] satisfiable_from(cmds@, env, x@, wn) by {
            assert(satisfiable_from(before, env, x@, wn));
            let env2 = choose|env2: spec_fn(Seq<char>) -> nat| #[trigger] model_from(before, env, env2, x@, wn);
            assert(search_state(env2, x@, cur_x@, cur_r@, 1, wn));
            let xv = env2(cur_x@) % p;
            let rv = env2(cur_r@) % p;
            let fv: nat = if xv != 0 { rv } else { (rv + 1) % p };
            let env3 = |n: Seq<char>| if n == f@ { fv } else { env2(n) };
            assert forall|n: Seq<char>| used.contains(n) implies env2(n) == env3(n) by {}
            lemma_sat_update(before, used, env2, env3, wn);
            vstd::arithmetic::div_mod::lemma_mod_pos_bound(env2(cur_x@) as int, p as int);
            vstd::arithmetic::div_mod::lemma_mod_pos_bound(env2(cur_r@) as int, p as int);
            vstd::arithmetic::div_mod::lemma_mod_pos_bound((rv + 1) as int, p as int);
            vstd::arithmetic::div_mod::lemma_small_mod(fv, p);
            vstd::arithmetic::div_mod::lemma_small_mod(rv, p);
            let is_zero = BoolTerm::Eq(BvTerm::Var(cur_x), BvTerm::Lit(w, 0));
            assert(bv_eval(BvTerm::Lit(w, 0), env3, wn) == 0);
            assert(bv_eval(BvTerm::Lit(w, 1), env3, wn) == 1);
            assert(bv_eval(BvTerm::Var(cur_x), env3, wn) == xv);
            assert(bv_eval(BvTerm::Var(cur_r), env3, wn) == rv);
            assert(bv_eval(BvTerm::Var(f), env3, wn) == fv);
            assert(bool_eval(is_zero, env3, wn) == (xv == 0));
            assert(bool_eval(BoolTerm::Not(Box::new(is_zero)), env3, wn) == (xv != 0));
            if xv != 0 {
                assert(bool_eval(BoolTerm::Eq(BvTerm::Var(f), BvTerm::Var(cur_r)), env3, wn));
            } else {
                let inc = BvTerm::Binary(BvOp::Add, Box::new(BvTerm::Var(cur_r)), Box::new(BvTerm::Lit(w, 1)));
                assert(bv_eval(inc, env3, wn) == fv);
                assert(bool_eval(BoolTerm::Eq(BvTerm::Var(f), inc), env3, wn));
            }
            assert(bool_eval(g_last, env3, wn));
            lemma_sat_extend(before, more, env3, wn);
            assert(env3(x@) == env(x@));
            assert(declares_name(cmds@[before.len() as int], f@));
            assert forall|n: Seq<char>| !declared(cmds@, n) implies env3(n) == env(n) by {
                if declared(before, n) {
                    lemma_declared_prefix(before, more, n);
                }
            }
            assert(model_from(cmds@, env, env3, x@, wn));
        }
        assert(fresh_declarations(more, x@));
        lemma_fresh_extend(before, more, used, x@);
        let last_names = bool_names(g_last);
        let vfx = BvTerm::Var(cur_x);
        let vfr = BvTerm::Var(cur_r);
        let vf = BvTerm::Var(f);
        let z0 = BvTerm::Lit(w, 0);
        let one = BvTerm::Lit(w, 1);
        assert(bv_names(vfx) =~= set![cur_x@]);
        assert(bv_names(vfr) =~= set![cur_r@]);
        assert(bv_names(vf) =~= set![f@]);
        assert(bv_names(z0) =~= Set::<Seq<char>>::empty());
        assert(bv_names(one) =~= Set::<Seq<char>>::empty());
        let inc = BvTerm::Binary(BvOp::Add, Box::new(vfr), Box::new(one));
        assert(bv_names(inc) =~= set![cur_r@]);
        assert(bool_names(BoolTerm::Eq(vfx, z0)) =~= set![cur_x@]);
        assert(bool_names(BoolTerm::Not(Box::new(BoolTerm::Eq(vfx, z0)))) =~= set![cur_x@]);
        assert(bool_names(BoolTerm::Eq(vf, vfr)) =~= set![f@, cur_r@]);
        assert(bool_names(BoolTerm::Eq(vf, inc)) =~= set![f@, cur_r@]);
        let used2 = used.insert(f@);
        assert(last_names.subset_of(used2));
        assert(within(more, used2));
        lemma_within_extend(before, more, used, used2);
        lemma_used_extend(used, x@, k as nat, idn);
        lemma_clz_name_shape(x@, 'f', 0, idn);
        assert forall|n: Seq<char>| #[trigger] used2.contains(n) implies n == x@ || extends_name(x@, n) by {
            if n != f@ {
                assert(used.contains(n));
            }
        }
        assert forall|j: int| 0 <= j < cmds@.len() implies match #[trigger] cmds@[j] {
            Command::Declare(m, _) => m@ != x@,
            _ => true,
        } by {
            assert(match (cmds@[j], cmds@[j]) {
                (Command::Declare(a, _), Command::Declare(b, _)) => a@ != x@,
                _ => true,
            });
        }
        lemma_names_within(cmds@, used2, x@);
        assert(declares(cmds@[before.len() as int], f@, w));
    }
    (cmds, f)
}

/// A term over slices of a named bit vector: bits `hi` down to `lo`, or two
/// such terms side by side, the first in the high bits.
#[derive(Debug)]
pub enum SliceTerm {
    Extract(usize, usize, String),
    Concat(Box<SliceTerm>, Box<SliceTerm>),
    /// `n` zero bits.
    Zeros(usize),
    /// Sum of two terms of one width, modulo two to that width.
    Add(Box<SliceTerm>, Box<SliceTerm>),
}

/// Number of bits of a slice term.
pub open spec fn slice_width(t: SliceTerm) -> nat
    decreases t,
{
    match t {
        SliceTerm::Extract(h, l, _) => (h - l + 1) as nat,
        SliceTerm::Concat(a, b) => slice_width(*a) + slice_width(*b),
        SliceTerm::Zeros(n) => n as nat,
        SliceTerm::Add(a, _) => slice_width(*a),
    }
}

/// Value of a slice term, as SMT-LIB defines `extract` and `concat`.
pub open spec fn slice_eval(t: SliceTerm, env: spec_fn(Seq<char>) -> nat) -> nat
    decreases t,
{
    match t {
        SliceTerm::Extract(h, l, n) => (env(n@) / two_pow(l as nat)) % two_pow((h - l + 1) as nat),
        SliceTerm::Concat(a, b) => slice_eval(*a, env) * two_pow(slice_width(*b)) + slice_eval(*b, env),
        SliceTerm::Zeros(_) => 0,
        SliceTerm::Add(a, b) => (slice_eval(*a, env) + slice_eval(*b, env)) % two_pow(slice_width(*a)),
    }
}

/// SMT-LIB text of a slice term.
pub open spec fn slice_text(t: SliceTerm) -> Seq<char>
    decreases t,
{
    match t {
        SliceTerm::Extract(h, l, n) => seq!['(', '(', '_', ' ', 'e', 'x', 't', 'r', 'a', 'c', 't', ' ']
            + crate::literal::decimal_digits(h as nat) + seq![' '] + crate::literal::decimal_digits(l as nat) + seq![')', ' ']
            + n@ + seq![')'],
        SliceTerm::Concat(a, b) => seq!['(', 'c', 'o', 'n', 'c', 'a', 't', ' '] + slice_text(*a) + seq![' '] + slice_text(*b)
            + seq![')'],
        SliceTerm::Zeros(n) => seq!['(', '_', ' ', 'b', 'v', '0', ' '] + crate::literal::decimal_digits(n as nat) + seq![')'],
        SliceTerm::Add(a, b) => seq!['(', 'b', 'v', 'a', 'd', 'd', ' '] + slice_text(*a) + seq![' '] + slice_text(*b)
            + seq![')'],
    }
}

/// The low `k` bits of `x` in reverse order: bit `i` of `x` becomes bit
/// `k - 1 - i`.
pub open spec fn reversed(x: nat, k: nat) -> nat
    decreases k,
{
    if k == 0 {
        0
    } else {
        2 * reversed(x, (k - 1) as nat) + (x / two_pow((k - 1) as nat)) % 2
    }
}

/// The bit reversal of the `w`-bit value named `x`. In every model its
/// value is `reversed(x, w)`.
pub fn encode_rev(x: &String, w: usize) -> (r: SliceTerm)
    requires
        w >= 1,
    ensures
        slice_width(r) == w,
        forall|env: spec_fn(Seq<char>) -> nat| #[trigger] slice_eval(r, env) == reversed(env(x@), w as nat),
{
    let mut t = SliceTerm::Extract(0, 0, x.clone());
    proof {
        assert forall|env: spec_fn(Seq<char>) -> nat| #[trigger] slice_eval(t, env) == reversed(env(x@), 1) by {
            assert(two_pow(0) == 1);
            assert(two_pow(1) == 2);
            assert(reversed(env(x@), 0) == 0);
        }
    }
    let mut k: usize = 1;
    while k < w
        invariant
            1 <= k <= w,
            slice_width(t) == k,
            forall|env: spec_fn(Seq<char>) -> nat| #[trigger] slice_eval(t, env) == reversed(env(x@), k as nat),
        decreases w - k,
    {
        let xc = x.clone();
        let bit = SliceTerm::Extract(k, k, xc);
        let ghost prev = t;
        proof {
            assert(xc@ == x@);
            assert(((k - k + 1) as nat) == 1);
            assert(slice_width(bit) == 1);
        }
        t = SliceTerm::Concat(Box::new(t), Box::new(bit));
        proof {
            assert(two_pow(0) == 1);
            assert(two_pow(1) == 2);
            assert forall|env: spec_fn(Seq<char>) -> nat| #[trigger] slice_eval(t, env) == reversed(env(x@), k as nat + 1) by {
                assert(slice_eval(prev, env) == reversed(env(x@), k as nat));
                assert(slice_eval(bit, env) == (env(xc@) / two_pow(k as nat)) % two_pow(1));
                assert(slice_eval(bit, env) == (env(x@) / two_pow(k as nat)) % 2);
                assert(reversed(env(x@), k as nat + 1) == 2 * reversed(env(x@), k as nat) + (env(x@) / two_pow(k as nat)) % 2);
                assert(t == SliceTerm::Concat(Box::new(prev), Box::new(bit)));
                assert(slice_eval(t, env) == slice_eval(prev, env) * two_pow(slice_width(bit)) + slice_eval(bit, env));
            }
        }
        k = k + 1;
    }
    t
}

/// Append the SMT-LIB text of a slice term to `out`.
pub fn render_slices(t: &SliceTerm, out: &mut Vec<char>)
    ensures
        final(out)@ == old(out)@ + slice_text(*t),
    decreases t,
{
    let ghost start = out@;
    match t {
        SliceTerm::Extract(h, l, n) => {
            crate::smt::push_chars(out, &vec!['(', '(', '_', ' ', 'e', 'x', 't', 'r', 'a', 'c', 't', ' ']);
            crate::smt::push_chars(out, &decimal_chars(*h as u128));
            out.push(' ');
            crate::smt::push_chars(out, &decimal_chars(*l as u128));
            out.push(')');
            out.push(' ');
            crate::smt::push_str(out, n.as_str());
            out.push(')');
        },
        SliceTerm::Concat(a, b) => {
            crate::smt::push_chars(out, &vec!['(', 'c', 'o', 'n', 'c', 'a', 't', ' ']);
            render_slices(a, out);
            out.push(' ');
            render_slices(b, out);
            out.push(')');
        },
        SliceTerm::Zeros(n) => {
            crate::smt::push_chars(out, &vec!['(', '_', ' ', 'b', 'v', '0', ' ']);
            crate::smt::push_chars(out, &decimal_chars(*n as u128));
            out.push(')');
        },
        SliceTerm::Add(a, b) => {
            crate::smt::push_chars(out, &vec!['(', 'b', 'v', 'a', 'd', 'd', ' ']);
            render_slices(a, out);
            out.push(' ');
            render_slices(b, out);
            out.push(')');
        },
    }
    proof {
        assert(out@ =~= start + slice_text(*t));
    }
}


/// Number of set bits among the low `k` bits of `x`.
pub open spec fn popcount(x: nat, k: nat) -> nat
    decreases k,
{
    if k == 0 {
        0
    } else {
        popcount(x, (k - 1) as nat) + (x / two_pow((k - 1) as nat)) % 2
    }
}

proof fn lemma_popcount_bound(x: nat, k: nat)
    ensures
        popcount(x, k) <= k,
    decreases k,
{
    if k > 0 {
        lemma_popcount_bound(x, (k - 1) as nat);
    }
}

/// Bit `k` of the value named `x`, widened to `w` bits.
fn widened_bit(x: &String, k: usize, w: usize) -> (r: SliceTerm)
    requires
        w >= 2,
    ensures
        slice_width(r) == w,
        forall|env: spec_fn(Seq<char>) -> nat| #[trigger] slice_eval(r, env) == (env(x@) / two_pow(k as nat)) % 2,
{
    let xc = x.clone();
    let bit = SliceTerm::Extract(k, k, xc);
    let zeros = SliceTerm::Zeros(w - 1);
    let ghost gz = zeros;
    let r = SliceTerm::Concat(Box::new(zeros), Box::new(bit));
    proof {
        assert(xc@ == x@);
        assert(((k - k + 1) as nat) == 1);
        assert(slice_width(gz) == w - 1);
        assert(two_pow(1) == 2) by {
            assert(two_pow(0) == 1);
        }
        assert(slice_width(bit) == 1);
        assert forall|env: spec_fn(Seq<char>) -> nat| #[trigger] slice_eval(r, env) == (env(x@) / two_pow(k as nat)) % 2 by {
            assert(slice_eval(bit, env) == (env(xc@) / two_pow(k as nat)) % two_pow(1));
            assert(slice_eval(gz, env) == 0);
            assert(r == SliceTerm::Concat(Box::new(gz), Box::new(bit)));
            assert(slice_eval(r, env) == slice_eval(gz, env) * two_pow(slice_width(bit)) + slice_eval(bit, env));
        }
    }
    r
}

/// The number of set bits of the `w`-bit value named `x`, as a `w`-bit
/// term: the sum of its bits. In every model its value is
/// `popcount(x, w)`, the number of set bits among the low `w` bits.
pub fn encode_popcnt(x: &String, w: usize) -> (r: SliceTerm)
    requires
        w >= 1,
    ensures
        slice_width(r) == w,
        forall|env: spec_fn(Seq<char>) -> nat| #[trigger] slice_eval(r, env) == popcount(env(x@), w as nat),
{
    proof {
        assert(two_pow(0) == 1);
        assert(two_pow(1) == 2);
    }
    if w == 1 {
        let xc = x.clone();
        let t = SliceTerm::Extract(0, 0, xc);
        proof {
            assert(xc@ == x@);
            assert forall|env: spec_fn(Seq<char>) -> nat| #[trigger] slice_eval(t, env) == popcount(env(x@), 1) by {
                assert(popcount(env(x@), 0) == 0);
                assert(env(x@) / 1 == env(x@));
                assert(slice_eval(t, env) == (env(xc@) / two_pow(0)) % two_pow(1));
            }
        }
        return t;
    }
    let mut t = widened_bit(x, 0, w);
    proof {
        crate::smt::lemma_width_fits(w as nat);
        assert forall|env: spec_fn(Seq<char>) -> nat| #[trigger] slice_eval(t, env) == popcount(env(x@), 1) by {
            assert(popcount(env(x@), 0) == 0);
        }
    }
    let mut k: usize = 1;
    while k < w
        invariant
            2 <= w,
            1 <= k <= w,
            w < two_pow(w as nat),
            slice_width(t) == w,
            forall|env: spec_fn(Seq<char>) -> nat| #[trigger] slice_eval(t, env) == popcount(env(x@), k as nat),
        decreases w - k,
    {
        let bit = widened_bit(x, k, w);
        let ghost prev = t;
        t = SliceTerm::Add(Box::new(t), Box::new(bit));
        proof {
            assert forall|env: spec_fn(Seq<char>) -> nat| #[trigger] slice_eval(t, env) == popcount(env(x@), k as nat + 1) by {
                let v = env(x@);
                lemma_popcount_bound(v, k as nat + 1);
                assert(slice_eval(prev, env) == popcount(v, k as nat));
                assert(slice_eval(bit, env) == (v / two_pow(k as nat)) % 2);
                assert(popcount(v, k as nat + 1) == popcount(v, k as nat) + (v / two_pow(k as nat)) % 2);
                vstd::arithmetic::div_mod::lemma_small_mod(popcount(v, k as nat + 1), two_pow(w as nat));
                assert(t == SliceTerm::Add(Box::new(prev), Box::new(bit)));
                assert(slice_eval(t, env) == (slice_eval(prev, env) + slice_eval(bit, env)) % two_pow(slice_width(prev)));
            }
        }
        k = k + 1;
    }
    t
}


/// The `w`-bit value `v` with every bit flipped when its top bit is set.
pub open spec fn sign_folded(v: nat, w: nat) -> nat {
    if v / two_pow((w - 1) as nat) == 1 {
        (two_pow(w) - 1 - v) as nat
    } else {
        v
    }
}

/// Leading sign bits of the `w`-bit value `v`: how many bits after the top
/// one are equal to it.
pub open spec fn leading_sign_bits(v: nat, w: nat) -> int {
    leading_zeros(sign_folded(v, w), w) - 1
}

/// The folded value has a clear top bit, so at least one leading zero.
proof fn lemma_sign_folded(v: nat, w: nat)
    requires
        w >= 1,
        v < two_pow(w),
    ensures
        sign_folded(v, w) < two_pow((w - 1) as nat),
        1 <= leading_zeros(sign_folded(v, w), w) <= w,
{
    let h = two_pow((w - 1) as nat);
    lemma_two_pow_pos((w - 1) as nat);
    assert(two_pow(w) == 2 * h);
    let q = v / h;
    assert(v == h * q + v % h) by {
        vstd::arithmetic::div_mod::lemma_fundamental_div_mod(v as int, h as int);
    }
    assert(v % h < h) by {
        vstd::arithmetic::div_mod::lemma_mod_pos_bound(v as int, h as int);
    }
    if q >= 2 {
        assert(h * q >= 2 * h) by (nonlinear_arith)
            requires q >= 2, h >= 1;
    }
    if q == 0 {
        assert(h * q == 0) by (nonlinear_arith)
            requires q == 0;
        assert(v < h);
    } else if q == 1 {
        assert(h * q == h) by (nonlinear_arith)
            requires q == 1;
        assert(v >= h);
    }
    lemma_bitlen_bound(sign_folded(v, w), (w - 1) as nat);
    lemma_bitlen_bound(sign_folded(v, w), w);
}

/// Commands that declare and pin down the number of leading sign bits of
/// the `w`-bit value named `x`: the value with its bits flipped when the top
/// one is set goes through the leading-zeros circuit, and the count is one
/// less. Returns them and the name of the count. For every value of `x` the
/// commands have a model that changes only names they declare, and in every
/// model the count is the number of leading sign bits.
pub fn encode_cls(x: &String, w: usize, id: usize) -> (r: (Vec<Command>, String))
    requires
        clz_width(w as nat),
    ensures
        forall|env: spec_fn(Seq<char>) -> nat| #[trigger] satisfies_all(r.0@, env, w as nat)
            ==> env(r.1@) % two_pow(w as nat) == leading_sign_bits(env(x@) % two_pow(w as nat), w as nat),
        forall|env: spec_fn(Seq<char>) -> nat| #[trigger] satisfiable_from(r.0@, env, x@, w as nat),
        r.1@ != x@,
        exists|k: int| 0 <= k < r.0@.len() && #[trigger] declares(r.0@[k], r.1@, w),
{
    let ghost wn = w as nat;
    let ghost p = two_pow(wn);
    let inp = clz_name(x, 's', 0, id);
    let out = clz_name(x, 'o', 0, id);
    proof {
        crate::smt::lemma_width_fits(wn);
        crate::literal::lemma_shift_is_two_pow(wn);
        lemma_clz_name_shape(x@, 's', 0, id as nat);
        lemma_clz_name_shape(x@, 'o', 0, id as nat);
        if inp@ == out@ {
            lemma_clz_name_injective(x@, 's', 0, 'o', 0, id as nat);
        }
    }
    let mask: u128 = (1u128 << (w as u128)) - 1;
    let top = BvTerm::Binary(BvOp::Lshr, Box::new(var(x)), Box::new(BvTerm::Lit(w, (w - 1) as u128)));
    let flipped = BvTerm::Binary(BvOp::Sub, Box::new(BvTerm::Lit(w, mask)), Box::new(var(x)));
    let sel = BoolTerm::Ite(
        Box::new(BoolTerm::Eq(top, BvTerm::Lit(w, 1))),
        Box::new(BoolTerm::Eq(var(&inp), flipped)),
        Box::new(BoolTerm::Eq(var(&inp), var(x))),
    );
    let ghost g_sel = sel;
    let (mut cmds, f) = encode_clz(&inp, w, id);
    let ghost clz = cmds@;
    cmds.insert(0, Command::Assert(sel));
    cmds.insert(0, Command::Declare(inp.clone(), w));
    let ghost head = seq![Command::Declare(inp, w), Command::Assert(g_sel)];
    let dec = BoolTerm::Eq(var(&out), BvTerm::Binary(BvOp::Sub, Box::new(var(&f)), Box::new(BvTerm::Lit(w, 1))));
    let ghost g_dec = dec;
    cmds.push(Command::Declare(out.clone(), w));
    cmds.push(Command::Assert(dec));
    proof {
        let tail = seq![Command::Declare(out, w), Command::Assert(g_dec)];
        assert(cmds@ =~= head + clz + tail);
        let all = cmds@;
        let hl = 2int;
        let cl = clz.len() as int;
        assert(all[0] == Command::Declare(inp, w));
        assert(all[1] == Command::Assert(g_sel));
        assert(all[hl + cl] == Command::Declare(out, w));
        assert(all[hl + cl + 1] == Command::Assert(g_dec));
        assert forall|k: int| 0 <= k < cl implies all[hl + k] == #[trigger] clz[k] by {}
        vstd::arithmetic::div_mod::lemma_small_mod(0, p);
        vstd::arithmetic::div_mod::lemma_small_mod(1, p);
        vstd::arithmetic::div_mod::lemma_small_mod((wn - 1) as nat, p);
        vstd::arithmetic::div_mod::lemma_small_mod((p - 1) as nat, p);
        assert(mask as nat == p - 1);
        // f is not x, not the input and not the output.
        assert(exists|k: int| 0 <= k < clz.len() && #[trigger] declares(clz[k], f@, w));
        let kf = choose|k: int| 0 <= k < clz.len() && #[trigger] declares(clz[k], f@, w);
        assert(names_within(clz, inp@));
        assert(match clz[kf] { Command::Assert(b) => true, Command::Declare(m, _) => extends_name(inp@, m@) });
        assert(extends_name(inp@, f@));
        assert(out@.len() == inp@.len());
        // Facts every model shares.
        assert forall|env: spec_fn(Seq<char>) -> nat| #[trigger] satisfies_all(cmds@, env, wn)
            implies env(out@) % p == leading_sign_bits(env(x@) % p, wn) by {
            let xv = env(x@) % p;
            vstd::arithmetic::div_mod::lemma_mod_pos_bound(env(x@) as int, p as int);
            assert(match all[1] { Command::Assert(b) => bool_eval(b, env, wn), _ => true });
            assert(match all[hl + cl + 1] { Command::Assert(b) => bool_eval(b, env, wn), _ => true });
            assert forall|k: int| 0 <= k < clz.len() implies match #[trigger] clz[k] {
                Command::Assert(b) => bool_eval(b, env, wn),
                _ => true,
            } by {
                assert(match all[hl + k] { Command::Assert(b) => bool_eval(b, env, wn), _ => true });
            }
            assert(satisfies_all(clz, env, wn));
            let iv = env(inp@) % p;
            let fv = env(f@) % p;
            assert(fv == leading_zeros(iv, wn));
            assert(bv_eval(BvTerm::Lit(w, (w - 1) as u128), env, wn) == (wn - 1) as nat);
            assert(bv_eval(BvTerm::Var(*x), env, wn) == xv);
            assert(bv_eval(BvTerm::Var(inp), env, wn) == iv);
            assert(bv_eval(BvTerm::Lit(w, mask), env, wn) == (p - 1) as nat);
            assert(bv_eval(BvTerm::Lit(w, 1), env, wn) == 1);
            let topt = BvTerm::Binary(BvOp::Lshr, Box::new(BvTerm::Var(*x)), Box::new(BvTerm::Lit(w, (w - 1) as u128)));
            assert(bv_eval(topt, env, wn) == xv / two_pow((wn - 1) as nat));
            lemma_sign_folded(xv, wn);
            let ft = BvTerm::Binary(BvOp::Sub, Box::new(BvTerm::Lit(w, mask)), Box::new(BvTerm::Var(*x)));
            assert(((p - 1) + p - xv) as nat == (p - 1 - xv) as nat + p);
            vstd::arithmetic::div_mod::lemma_mod_add_multiples_vanish((p - 1 - xv) as int, p as int);
            vstd::arithmetic::div_mod::lemma_small_mod((p - 1 - xv) as nat, p);
            assert(bv_eval(ft, env, wn) == (p - 1 - xv) as nat);
            if xv / two_pow((wn - 1) as nat) == 1 {
                assert(bool_eval(BoolTerm::Eq(topt, BvTerm::Lit(w, 1)), env, wn));
                assert(bool_eval(BoolTerm::Eq(BvTerm::Var(inp), ft), env, wn));
            } else {
                assert(!bool_eval(BoolTerm::Eq(topt, BvTerm::Lit(w, 1)), env, wn));
                assert(bool_eval(BoolTerm::Eq(BvTerm::Var(inp), BvTerm::Var(*x)), env, wn));
            }
            assert(iv == sign_folded(xv, wn));
            let subt = BvTerm::Binary(BvOp::Sub, Box::new(BvTerm::Var(f)), Box::new(BvTerm::Lit(w, 1)));
            assert(bv_eval(BvTerm::Var(f), env, wn) == fv);
            assert((fv + p - 1) as nat == (fv - 1) as nat + p);
            vstd::arithmetic::div_mod::lemma_mod_add_multiples_vanish((fv - 1) as int, p as int);
            vstd::arithmetic::div_mod::lemma_small_mod((fv - 1) as nat, p);
            assert(bv_eval(subt, env, wn) == (fv - 1) as nat);
            assert(bool_eval(BoolTerm::Eq(BvTerm::Var(out), subt), env, wn));
            assert(bv_eval(BvTerm::Var(out), env, wn) == env(out@) % p);
        }
        // A model for every value of x.
        assert forall|env: spec_fn(Seq<char>) -> nat| #[trigger] satisfiable_from(cmds@, env, x@, wn) by {
            let xv = env(x@) % p;
            vstd::arithmetic::div_mod::lemma_mod_pos_bound(env(x@) as int, p as int);
            lemma_sign_folded(xv, wn);
            let iv = sign_folded(xv, wn);
            let env1 = |n: Seq<char>| if n == inp@ { iv } else { env(n) };
            assert(satisfiable_from(clz, env1, inp@, wn));
            let env2 = choose|env2: spec_fn(Seq<char>) -> nat| #[trigger] model_from(clz, env1, env2, inp@, wn);
            assert(!declared(clz, x@)) by {
                if declared(clz, x@) {
                    let k = choose|k: int| 0 <= k < clz.len() && #[trigger] declares_name(clz[k], x@);
                    assert(match clz[k] { Command::Assert(b) => true, Command::Declare(m, _) => extends_name(inp@, m@) });
                }
            }
            assert(!declared(clz, out@)) by {
                if declared(clz, out@) {
                    let k = choose|k: int| 0 <= k < clz.len() && #[trigger] declares_name(clz[k], out@);
                    assert(match clz[k] { Command::Assert(b) => true, Command::Declare(m, _) => extends_name(inp@, m@) });
                }
            }
            assert(env2(x@) == env(x@));
            assert(env2(inp@) == iv);
            vstd::arithmetic::div_mod::lemma_small_mod(iv, p);
            let fv = env2(f@) % p;
            assert(fv == leading_zeros(iv, wn));
            let ov = (fv - 1) as nat;
            let env3 = |n: Seq<char>| if n == out@ { ov } else { env2(n) };
            // The circuit's assertions do not read the output.
            assert forall|k: int| 0 <= k < clz.len() implies match #[trigger] clz[k] {
                Command::Assert(b) => bool_eval(b, env3, wn),
                _ => true,
            } by {
                match clz[k] {
                    Command::Assert(b) => {
                        assert(bool_eval(b, env2, wn));
                        assert forall|n: Seq<char>| bool_names(b).contains(n) implies env2(n) == env3(n) by {
                            assert(n == inp@ || extends_name(inp@, n));
                        }
                        lemma_bool_agree(b, env2, env3, wn);
                    },
                    _ => {},
                }
            }
            let topt = BvTerm::Binary(BvOp::Lshr, Box::new(BvTerm::Var(*x)), Box::new(BvTerm::Lit(w, (w - 1) as u128)));
            let ft = BvTerm::Binary(BvOp::Sub, Box::new(BvTerm::Lit(w, mask)), Box::new(BvTerm::Var(*x)));
            assert(bv_eval(BvTerm::Var(*x), env3, wn) == xv);
            assert(bv_eval(BvTerm::Var(inp), env3, wn) == iv);
            assert(bv_eval(BvTerm::Lit(w, mask), env3, wn) == (p - 1) as nat);
            assert(bv_eval(BvTerm::Lit(w, 1), env3, wn) == 1);
            assert(bv_eval(BvTerm::Lit(w, (w - 1) as u128), env3, wn) == (wn - 1) as nat);
            assert(bv_eval(topt, env3, wn) == xv / two_pow((wn - 1) as nat));
            assert(((p - 1) + p - xv) as nat == (p - 1 - xv) as nat + p);
            vstd::arithmetic::div_mod::lemma_mod_add_multiples_vanish((p - 1 - xv) as int, p as int);
            vstd::arithmetic::div_mod::lemma_small_mod((p - 1 - xv) as nat, p);
            assert(bv_eval(ft, env3, wn) == (p - 1 - xv) as nat);
            if xv / two_pow((wn - 1) as nat) == 1 {
                assert(bool_eval(BoolTerm::Eq(topt, BvTerm::Lit(w, 1)), env3, wn));
                assert(bool_eval(BoolTerm::Eq(BvTerm::Var(inp), ft), env3, wn));
            } else {
                assert(!bool_eval(BoolTerm::Eq(topt, BvTerm::Lit(w, 1)), env3, wn));
                assert(bool_eval(BoolTerm::Eq(BvTerm::Var(inp), BvTerm::Var(*x)), env3, wn));
            }
            assert(bool_eval(g_sel, env3, wn));
            assert(env3(f@) == env2(f@));
            let subt = BvTerm::Binary(BvOp::Sub, Box::new(BvTerm::Var(f)), Box::new(BvTerm::Lit(w, 1)));
            assert(bv_eval(BvTerm::Var(f), env3, wn) == fv);
            assert((fv + p - 1) as nat == ov + p);
            vstd::arithmetic::div_mod::lemma_mod_add_multiples_vanish(ov as int, p as int);
            vstd::arithmetic::div_mod::lemma_small_mod(ov, p);
            assert(bv_eval(subt, env3, wn) == ov);
            assert(bv_eval(BvTerm::Var(out), env3, wn) == ov);
            assert(bool_eval(g_dec, env3, wn));
            assert forall|k: int| 0 <= k < all.len() implies match #[trigger] all[k] {
                Command::Assert(b) => bool_eval(b, env3, wn),
                _ => true,
            } by {
                if hl <= k < hl + cl {
                    assert(all[k] == clz[k - hl]);
                }
            }
            assert(satisfies_all(cmds@, env3, wn));
            assert(declares_name(all[0], inp@));
            assert(declares_name(all[hl + cl], out@));
            assert forall|n: Seq<char>| !declared(cmds@, n) implies env3(n) == env(n) by {
                if declared(clz, n) {
                    let k = choose|k: int| 0 <= k < clz.len() && #[trigger] declares_name(clz[k], n);
                    assert(declares_name(all[hl + k], n));
                }
            }
            assert(model_from(cmds@, env, env3, x@, wn));
        }
        assert(all.len() == hl + cl + 2);
        assert(declares(all[hl + cl], out@, w));
        assert(exists|k: int| 0 <= k < all.len() && #[trigger] declares(all[k], out@, w));
    }
    let ghost final_cmds = cmds@;
    let ghost final_out = out@;
    proof {
        assert(exists|k: int| 0 <= k < final_cmds.len() && #[trigger] declares(final_cmds[k], final_out, w));
    }
    let r = (cmds, out);
    proof {
        assert(r.0@ == final_cmds);
        assert(r.1@ == final_out);
    }
    r
}

} // verus!
