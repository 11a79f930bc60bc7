use std::collections::HashMap;

use isle_veri::circuit::{encode_cls, encode_clz, encode_popcnt, encode_rev, render_slices, SliceTerm};
use isle_veri::smt::{render_command, BoolTerm, BvOp, BvTerm, Command};

fn mask(w: u32) -> u128 {
    if w == 128 { u128::MAX } else { (1u128 << w) - 1 }
}

fn eval(t: &BvTerm, env: &HashMap<String, u128>, w: u32) -> u128 {
    match t {
        BvTerm::Var(n) => env[n] & mask(w),
        BvTerm::Lit(_, v) => v & mask(w),
        BvTerm::Binary(op, a, b) => {
            let a = eval(a, env, w);
            let b = eval(b, env, w);
            match op {
                BvOp::Add => a.wrapping_add(b) & mask(w),
                BvOp::Urem => if b == 0 { a } else { a % b },
                BvOp::Sub => a.wrapping_sub(b) & mask(w),
                BvOp::Shl => if b >= w as u128 { 0 } else { (a << b) & mask(w) },
                BvOp::Lshr => if b >= w as u128 { 0 } else { a >> b },
                BvOp::Or => a | b,
            }
        }
    }
}

fn holds(b: &BoolTerm, env: &HashMap<String, u128>, w: u32) -> bool {
    match b {
        BoolTerm::Eq(x, y) => eval(x, env, w) == eval(y, env, w),
        BoolTerm::Not(c) => !holds(c, env, w),
        BoolTerm::Ite(c, t, e) => if holds(c, env, w) { holds(t, env, w) } else { holds(e, env, w) },
    }
}

/// Give each declared name the value its defining assertion forces.
fn define(b: &BoolTerm, env: &mut HashMap<String, u128>, w: u32) {
    match b {
        BoolTerm::Eq(BvTerm::Var(n), t) => {
            let v = eval(t, env, w);
            env.insert(n.clone(), v);
        }
        BoolTerm::Ite(c, t, e) => {
            if holds(c, env, w) { define(t, env, w) } else { define(e, env, w) }
        }
        _ => panic!("unexpected assertion"),
    }
}

fn run(w: u32, x: u128) -> u128 {
    let (cmds, f) = encode_clz(&"x".to_string(), w as usize, 7);
    let mut env = HashMap::new();
    env.insert("x".to_string(), x);
    for c in &cmds {
        if let Command::Assert(b) = c {
            define(b, &mut env, w);
        }
    }
    for c in &cmds {
        if let Command::Assert(b) = c {
            assert!(holds(b, &env, w));
        }
    }
    env[&f]
}

#[test]
fn clz_circuit_counts_leading_zeros() {
    for x in 0..256u128 {
        assert_eq!(run(8, x), (x as u8).leading_zeros() as u128, "clz8 {x}");
    }
    for x in [0u128, 1] {
        assert_eq!(run(1, x), 1 - x);
    }
    for x in [0u128, 1, 0x80, 0xFFFF, 0x1234] {
        assert_eq!(run(16, x), (x as u16).leading_zeros() as u128);
    }
    for x in [0u128, 1, 0x8000_0000, 0x00FF_0000] {
        assert_eq!(run(32, x), (x as u32).leading_zeros() as u128);
    }
    for x in [0u128, 1, u64::MAX as u128, 0x0000_0100_0000_0000] {
        assert_eq!(run(64, x), (x as u64).leading_zeros() as u128);
    }
}

#[test]
fn clz_circuit_text() {
    let (cmds, _) = encode_clz(&"x_0".to_string(), 2, 3);
    let text: Vec<String> = cmds.iter().map(render_command).collect();
    assert_eq!(text[0], "(declare-const x_0.r0_3 (_ BitVec 2))");
    assert_eq!(text[1], "(assert (= x_0.r0_3 #b00))");
    assert_eq!(text[5], "(assert (= x_0.y1_3 (bvlshr x_0 #b01)))");
    assert_eq!(
        text[6],
        "(assert (ite (not (= x_0.y1_3 #b00)) (= x_0.r1_3 x_0.r0_3) (= x_0.r1_3 (bvadd x_0.r0_3 #b01))))"
    );
    assert_eq!(text.last().unwrap(), "(assert (ite (not (= x_0.x1_3 #b00)) (= x_0.f0_3 x_0.r1_3) (= x_0.f0_3 (bvadd x_0.r1_3 #b01))))");
}

fn slice_eval(t: &SliceTerm, env: &HashMap<String, u128>) -> (u128, u32) {
    match t {
        SliceTerm::Extract(h, l, n) => {
            let width = (*h - *l + 1) as u32;
            ((env[n] >> *l) & mask(width), width)
        }
        SliceTerm::Concat(a, b) => {
            let (va, wa) = slice_eval(a, env);
            let (vb, wb) = slice_eval(b, env);
            ((va << wb) | vb, wa + wb)
        }
        SliceTerm::Zeros(n) => (0, *n as u32),
        SliceTerm::Add(a, b) => {
            let (va, wa) = slice_eval(a, env);
            let (vb, _) = slice_eval(b, env);
            (va.wrapping_add(vb) & mask(wa), wa)
        }
    }
}

#[test]
fn rev_reverses_bits() {
    for x in 0..256u128 {
        let t = encode_rev(&"x".to_string(), 8);
        let mut env = HashMap::new();
        env.insert("x".to_string(), x);
        let (v, w) = slice_eval(&t, &env);
        assert_eq!(w, 8);
        assert_eq!(v, (x as u8).reverse_bits() as u128, "rev8 {x}");
    }
    for x in [0u128, 1, 0x8000_0000_0000_0000, 0x0123_4567_89AB_CDEF] {
        let t = encode_rev(&"x".to_string(), 64);
        let mut env = HashMap::new();
        env.insert("x".to_string(), x);
        assert_eq!(slice_eval(&t, &env).0, (x as u64).reverse_bits() as u128);
    }
    let t = encode_rev(&"v_3".to_string(), 2);
    let mut out = Vec::new();
    render_slices(&t, &mut out);
    let text: String = out.into_iter().collect();
    assert_eq!(text, "(concat ((_ extract 0 0) v_3) ((_ extract 1 1) v_3))");
}

#[test]
fn popcnt_counts_set_bits() {
    for w in [1usize, 8, 16] {
        let t = encode_popcnt(&"x".to_string(), w);
        for x in [0u128, 1, 0xFF, 0xA5A5, 0x8001, 0x7] {
            let mut env = HashMap::new();
            env.insert("x".to_string(), x);
            let (v, width) = slice_eval(&t, &env);
            assert_eq!(width as usize, w);
            assert_eq!(v, (x & mask(w as u32)).count_ones() as u128, "popcnt{w} {x}");
        }
    }
    let t = encode_popcnt(&"v".to_string(), 2);
    let mut out = Vec::new();
    render_slices(&t, &mut out);
    let text: String = out.into_iter().collect();
    assert_eq!(text, "(bvadd (concat (_ bv0 1) ((_ extract 0 0) v)) (concat (_ bv0 1) ((_ extract 1 1) v)))");
}

fn run_cls(w: u32, x: u128) -> u128 {
    let (cmds, out) = encode_cls(&"x".to_string(), w as usize, 4);
    let mut env = HashMap::new();
    env.insert("x".to_string(), x);
    for c in &cmds {
        if let Command::Assert(b) = c {
            define(b, &mut env, w);
        }
    }
    for c in &cmds {
        if let Command::Assert(b) = c {
            assert!(holds(b, &env, w));
        }
    }
    env[&out]
}

#[test]
fn cls_counts_leading_sign_bits() {
    for x in 0..256u128 {
        let v = x as u8 as i8;
        let expect = if v < 0 { (!v).leading_zeros() - 1 } else { v.leading_zeros() - 1 };
        assert_eq!(run_cls(8, x), expect as u128, "cls8 {x}");
    }
    for x in [0u128, 1, 0xFFFF_FFFF, 0x8000_0000, 0x0000_FFFF, 0xC000_0000] {
        let v = x as u32 as i32;
        let expect = if v < 0 { (!v).leading_zeros() - 1 } else { v.leading_zeros() - 1 };
        assert_eq!(run_cls(32, x), expect as u128, "cls32 {x}");
    }
    assert_eq!(run_cls(1, 0), 0);
    assert_eq!(run_cls(1, 1), 0);
}
