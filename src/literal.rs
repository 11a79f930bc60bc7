//! SMT-LIB text of constants, and constants read back from the literals a
//! solver prints in its models.
use vstd::prelude::*;
use vstd::string::StrSliceExecFns;
use crate::types::Const;

verus! {

/// Why a solver literal could not be read as a constant.
#[derive(Clone, Copy, Debug, PartialEq, Eq, Structural)]
pub enum LiteralError {
    /// The literal is of no supported form.
    Unsupported,
    /// A numeral is empty, holds a digit outside its radix, or does not fit.
    InvalidNumber,
}

/// `2^n`.
pub open spec fn two_pow(n: nat) -> nat
    decreases n,
{
    if n == 0 {
        1
    } else {
        2 * two_pow((n - 1) as nat)
    }
}

/// Value of a digit character: `0-9`, then `a-f` or `A-F` for ten to fifteen.
pub open spec fn digit_value(c: char) -> nat {
    if '0' <= c && c <= '9' {
        (c as nat - '0' as nat) as nat
    } else if 'a' <= c && c <= 'f' {
        (c as nat - 'a' as nat + 10) as nat
    } else if 'A' <= c && c <= 'F' {
        (c as nat - 'A' as nat + 10) as nat
    } else {
        16
    }
}

/// Every character of `s` is a digit of radix `radix`.
pub open spec fn all_digits(s: Seq<char>, radix: nat) -> bool {
    forall|k: int| 0 <= k < s.len() ==> digit_value(#[trigger] s[k]) < radix
}

/// Value of the numeral `s` in radix `radix`, most significant digit first.
pub open spec fn numeral_value(s: Seq<char>, radix: nat) -> nat
    decreases s.len(),
{
    if s.len() == 0 {
        0
    } else {
        radix * numeral_value(s.drop_last(), radix) + digit_value(s.last())
    }
}

/// `s` is a numeral of radix `radix` whose value fits in `u128`.
pub open spec fn numeral_fits(s: Seq<char>, radix: nat) -> bool {
    s.len() > 0 && all_digits(s, radix) && numeral_value(s, radix) <= u128::MAX
}

/// Character of a digit below sixteen.
pub open spec fn digit_char(d: nat) -> char {
    if d < 10 {
        ((d + '0' as nat) as u8) as char
    } else {
        ((d - 10 + 'a' as nat) as u8) as char
    }
}

/// The `w` low bits of `v`, most significant first.
pub open spec fn binary_digits(v: nat, w: nat) -> Seq<char>
    decreases w,
{
    if w == 0 {
        seq![]
    } else {
        binary_digits(v / 2, (w - 1) as nat).push(digit_char(v % 2))
    }
}

/// Decimal numeral of `v`, without leading zeros.
pub open spec fn decimal_digits(v: nat) -> Seq<char>
    decreases v,
{
    if v < 10 {
        seq![digit_char(v)]
    } else {
        decimal_digits(v / 10).push(digit_char(v % 10))
    }
}

pub open spec fn true_text() -> Seq<char> {
    seq!['t', 'r', 'u', 'e']
}

pub open spec fn false_text() -> Seq<char> {
    seq!['f', 'a', 'l', 's', 'e']
}

/// SMT-LIB text of a constant: `true`, `false`, a numeral (negated as
/// `(- n)`), or a bit vector in binary `#b...` with one digit per bit.
pub open spec fn const_text(c: Const) -> Seq<char> {
    match c {
        Const::Bool(b) => if b {
            true_text()
        } else {
            false_text()
        },
        Const::Int(v) => if v >= 0 {
            decimal_digits(v as nat)
        } else {
            seq!['(', '-', ' '] + decimal_digits((-v) as nat) + seq![')']
        },
        Const::BitVector(w, v) => seq!['#', 'b'] + binary_digits(v as nat, w as nat),
        Const::Unspecified => seq![],
    }
}

/// A constant that has SMT-LIB text: not unspecified, and a bit vector of
/// positive width whose value fits in that width.
pub open spec fn encodable(c: Const) -> bool {
    match c {
        Const::BitVector(w, v) => w >= 1 && (v as nat) < two_pow(w as nat),
        Const::Unspecified => false,
        _ => true,
    }
}

pub open spec fn as_prefix() -> Seq<char> {
    seq!['(', 'a', 's', ' ']
}

pub open spec fn unspecified_suffix() -> Seq<char> {
    seq![' ', 'U', 'n', 's', 'p', 'e', 'c', 'i', 'f', 'i', 'e', 'd', ')']
}

/// `a` is `(as @v Unspecified)`: an abstract value of the sort that stands
/// for unspecified values, `@v` being one word.
pub open spec fn unspecified_value(a: Seq<char>) -> bool {
    &&& a.len() >= 18
    &&& a.take(4) == as_prefix()
    &&& a.skip(a.len() - 13) == unspecified_suffix()
    &&& a[4] == '@'
    &&& forall|k: int| 4 <= k < a.len() - 13 ==> #[trigger] a[k] != ' ' && a[k] != '(' && a[k] != ')'
}

/// The constant that a solver literal stands for: `true`, `false`, `#x`
/// followed by hexadecimal digits (four bits each), `#b` followed by binary
/// digits (one bit each), or a decimal numeral.
pub open spec fn literal_const(a: Seq<char>) -> Result<Const, LiteralError> {
    if a == true_text() {
        Ok(Const::Bool(true))
    } else if a == false_text() {
        Ok(Const::Bool(false))
    } else if a.len() >= 2 && a[0] == '#' && a[1] == 'x' {
        let d = a.skip(2);
        if numeral_fits(d, 16) {
            Ok(Const::BitVector((4 * d.len()) as usize, numeral_value(d, 16) as u128))
        } else {
            Err(LiteralError::InvalidNumber)
        }
    } else if a.len() >= 2 && a[0] == '#' && a[1] == 'b' {
        let d = a.skip(2);
        if numeral_fits(d, 2) {
            Ok(Const::BitVector(d.len() as usize, numeral_value(d, 2) as u128))
        } else {
            Err(LiteralError::InvalidNumber)
        }
    } else if a.len() > 0 && '0' <= a[0] && a[0] <= '9' {
        if numeral_fits(a, 10) && numeral_value(a, 10) <= i128::MAX {
            Ok(Const::Int(numeral_value(a, 10) as i128))
        } else {
            Err(LiteralError::InvalidNumber)
        }
    } else if unspecified_value(a) {
        Ok(Const::Unspecified)
    } else {
        Err(LiteralError::Unsupported)
    }
}

/// Relies on `FromIterator<char>` for `String`: the string holds the
/// characters in order.
#[verifier::external_body]
pub(crate) fn string_of(cs: &Vec<char>) -> (r: String)
    ensures
        r@ == cs@,
{
    cs.iter().collect()
}

fn digit_char_of(d: u8) -> (c: char)
    requires
        d < 16,
    ensures
        c == digit_char(d as nat),
{
    if d < 10 {
        (d + 48) as char
    } else {
        (d - 10 + 97) as char
    }
}

/// The `w` low bits of `v`, most significant first.
fn binary_chars(v: u128, w: usize) -> (r: Vec<char>)
    ensures
        r@ == binary_digits(v as nat, w as nat),
{
    let mut out: Vec<char> = Vec::new();
    let mut cur: u128 = v;
    let mut i: usize = 0;
    while i < w
        invariant
            i <= w,
            binary_digits(v as nat, w as nat) == binary_digits(cur as nat, (w - i) as nat) + out@,
        decreases w - i,
    {
        let c = digit_char_of((cur % 2) as u8);
        proof {
            let rest = binary_digits((cur / 2) as nat, (w - i - 1) as nat);
            assert(binary_digits(cur as nat, (w - i) as nat) == rest.push(c));
            assert(rest.push(c) + out@ =~= rest + seq![c].add(out@));
        }
        out.insert(0, c);
        proof {
            assert(out@ =~= seq![c].add(out@.drop_first()));
        }
        cur = cur / 2;
        i = i + 1;
    }
    proof {
        assert(binary_digits(v as nat, w as nat) =~= out@);
    }
    out
}

/// Decimal numeral of `v`.
pub(crate) fn decimal_chars(v: u128) -> (r: Vec<char>)
    ensures
        r@ == decimal_digits(v as nat),
{
    let mut out: Vec<char> = Vec::new();
    let mut cur: u128 = v;
    while cur >= 10
        invariant
            decimal_digits(v as nat) == decimal_digits(cur as nat) + out@,
        decreases cur,
    {
        let c = digit_char_of((cur % 10) as u8);
        proof {
            let rest = decimal_digits((cur / 10) as nat);
            assert(decimal_digits(cur as nat) == rest.push(c));
            assert(rest.push(c) + out@ =~= rest + seq![c].add(out@));
        }
        out.insert(0, c);
        proof {
            assert(out@ =~= seq![c].add(out@.drop_first()));
        }
        cur = cur / 10;
    }
    let c = digit_char_of(cur as u8);
    proof {
        assert(decimal_digits(cur as nat) == seq![c]);
        assert(seq![c] + out@ =~= seq![c].add(out@));
    }
    out.insert(0, c);
    proof {
        assert(decimal_digits(v as nat) =~= out@);
    }
    out
}

/// SMT-LIB text of a constant.
pub fn const_to_smt(c: &Const) -> (r: String)
    requires
        encodable(*c),
    ensures
        r@ == const_text(*c),
{
    let mut cs: Vec<char> = Vec::new();
    match c {
        Const::Bool(b) => {
            if *b {
                cs = vec!['t', 'r', 'u', 'e'];
            } else {
                cs = vec!['f', 'a', 'l', 's', 'e'];
            }
            proof {
                assert(cs@ =~= const_text(*c));
            }
        },
        Const::Int(v) => {
            if *v >= 0 {
                cs = decimal_chars(*v as u128);
            } else {
                let magnitude: u128 = ((-(*v + 1)) as u128) + 1;
                let digits = decimal_chars(magnitude);
                cs = vec!['(', '-', ' '];
                let mut i: usize = 0;
                while i < digits.len()
                    invariant
                        i <= digits@.len(),
                        cs@ == seq!['(', '-', ' '] + digits@.take(i as int),
                    decreases digits@.len() - i,
                {
                    cs.push(digits[i]);
                    proof {
                        assert(digits@.take(i as int + 1) =~= digits@.take(i as int).push(digits@[i as int]));
                    }
                    i = i + 1;
                }
                cs.push(')');
                proof {
                    assert(digits@.take(digits@.len() as int) =~= digits@);
                    assert(cs@ =~= const_text(*c));
                }
            }
        },
        Const::BitVector(w, v) => {
            let digits = binary_chars(*v, *w);
            cs = vec!['#', 'b'];
            let mut i: usize = 0;
            while i < digits.len()
                invariant
                    i <= digits@.len(),
                    cs@ == seq!['#', 'b'] + digits@.take(i as int),
                decreases digits@.len() - i,
            {
                cs.push(digits[i]);
                proof {
                    assert(digits@.take(i as int + 1) =~= digits@.take(i as int).push(digits@[i as int]));
                }
                i = i + 1;
            }
            proof {
                assert(digits@.take(digits@.len() as int) =~= digits@);
            }
        },
        Const::Unspecified => {},
    }
    string_of(&cs)
}


/// A numeral extended by one digit.
pub proof fn lemma_numeral_take(s: Seq<char>, radix: nat, i: int)
    requires
        0 <= i < s.len(),
    ensures
        numeral_value(s.take(i + 1), radix) == radix * numeral_value(s.take(i), radix) + digit_value(s[i]),
{
    assert(s.take(i + 1).drop_last() =~= s.take(i));
}

/// A prefix of a numeral is worth no more than the whole.
pub proof fn lemma_numeral_prefix(s: Seq<char>, radix: nat, i: int)
    requires
        0 <= i <= s.len(),
        radix >= 1,
    ensures
        numeral_value(s.take(i), radix) <= numeral_value(s, radix),
    decreases s.len(),
{
    if i < s.len() {
        let d = s.drop_last();
        lemma_numeral_prefix(d, radix, i);
        assert(d.take(i) =~= s.take(i));
        assert(radix * numeral_value(d, radix) >= numeral_value(d, radix)) by (nonlinear_arith)
            requires radix >= 1;
    } else {
        assert(s.take(i) =~= s);
    }
}

fn digit_of(c: char) -> (r: u32)
    ensures
        r == digit_value(c),
{
    let x = c as u32;
    if 48 <= x && x <= 57 {
        x - 48
    } else if 97 <= x && x <= 102 {
        x - 97 + 10
    } else if 65 <= x && x <= 70 {
        x - 65 + 10
    } else {
        16
    }
}

/// Value of the numeral `s[start..]` in radix `radix`, if it is one and fits.
fn parse_numeral(s: &Vec<char>, start: usize, radix: u32) -> (r: Option<u128>)
    requires
        2 <= radix <= 16,
    ensures
        start <= s@.len() ==> r == (if numeral_fits(s@.skip(start as int), radix as nat) {
            Some(numeral_value(s@.skip(start as int), radix as nat) as u128)
        } else {
            None
        }),
{
    let ghost sub = s@.skip(start as int);
    if start >= s.len() {
        return None;
    }
    let mut i: usize = start;
    while i < s.len()
        invariant
            start <= i <= s@.len(),
            sub == s@.skip(start as int),
            forall|k: int| 0 <= k < i - start ==> digit_value(#[trigger] sub[k]) < radix,
        decreases s@.len() - i,
    {
        if digit_of(s[i]) >= radix {
            proof {
                assert(sub[i - start] == s@[i as int]);
            }
            return None;
        }
        i = i + 1;
    }
    let mut acc: u128 = 0;
    i = start;
    while i < s.len()
        invariant
            start <= i <= s@.len(),
            sub == s@.skip(start as int),
            all_digits(sub, radix as nat),
            2 <= radix <= 16,
            acc as nat == numeral_value(sub.take(i - start), radix as nat),
        decreases s@.len() - i,
    {
        let d = digit_of(s[i]);
        proof {
            assert(sub[i - start] == s@[i as int]);
            lemma_numeral_take(sub, radix as nat, i - start);
            lemma_numeral_prefix(sub, radix as nat, i - start + 1);
            assert(acc as nat * radix as nat == radix as nat * acc as nat) by (nonlinear_arith);
        }
        let m = match acc.checked_mul(radix as u128) {
            Some(m) => m,
            None => return None,
        };
        acc = match m.checked_add(d as u128) {
            Some(a) => a,
            None => return None,
        };
        i = i + 1;
    }
    proof {
        assert(sub.take(sub.len() as int) =~= sub);
    }
    Some(acc)
}

/// The characters of a string.
fn chars_of(a: &str) -> (r: Vec<char>)
    ensures
        r@ == a@,
{
    let n = a.unicode_len();
    let mut r: Vec<char> = Vec::new();
    let mut i: usize = 0;
    while i < n
        invariant
            n == a@.len(),
            i <= n,
            r@ == a@.take(i as int),
        decreases n - i,
    {
        r.push(a.get_char(i));
        proof {
            assert(a@.take(i as int + 1) =~= a@.take(i as int).push(a@[i as int]));
        }
        i = i + 1;
    }
    proof {
        assert(a@.take(n as int) =~= a@);
    }
    r
}

/// Read the constant that a solver literal stands for.
pub fn const_from_literal(atom: &str) -> (r: Result<Const, LiteralError>)
    requires
        4 * atom@.len() <= usize::MAX,
    ensures
        r == literal_const(atom@),
{
    let a = chars_of(atom);
    let n = a.len();
    if n == 4 && a[0] == 't' && a[1] == 'r' && a[2] == 'u' && a[3] == 'e' {
        proof {
            assert(a@ =~= true_text());
        }
        return Ok(Const::Bool(true));
    }
    if n == 5 && a[0] == 'f' && a[1] == 'a' && a[2] == 'l' && a[3] == 's' && a[4] == 'e' {
        proof {
            assert(a@ =~= false_text());
            assert(a@ != true_text());
        }
        return Ok(Const::Bool(false));
    }
    proof {
        if a@ == true_text() {
            assert(a@[0] == 't' && a@[3] == 'e');
        }
        if a@ == false_text() {
            assert(a@[0] == 'f' && a@[4] == 'e');
        }
    }
    if n >= 2 && a[0] == '#' && a[1] == 'x' {
        return match parse_numeral(&a, 2, 16) {
            Some(v) => Ok(Const::BitVector(4 * (n - 2), v)),
            None => Err(LiteralError::InvalidNumber),
        };
    }
    if n >= 2 && a[0] == '#' && a[1] == 'b' {
        return match parse_numeral(&a, 2, 2) {
            Some(v) => Ok(Const::BitVector(n - 2, v)),
            None => Err(LiteralError::InvalidNumber),
        };
    }
    if n > 0 && '0' <= a[0] && a[0] <= '9' {
        proof {
            assert(a@.skip(0) =~= a@);
        }
        return match parse_numeral(&a, 0, 10) {
            Some(v) => if v <= 0x7fff_ffff_ffff_ffff_ffff_ffff_ffff_ffff {
                Ok(Const::Int(v as i128))
            } else {
                Err(LiteralError::InvalidNumber)
            },
            None => Err(LiteralError::InvalidNumber),
        };
    }
    if is_unspecified_value(&a) {
        return Ok(Const::Unspecified);
    }
    Err(LiteralError::Unsupported)
}

fn is_unspecified_value(a: &Vec<char>) -> (r: bool)
    ensures
        r == unspecified_value(a@),
{
    let n = a.len();
    if n < 18 {
        return false;
    }
    let prefix = vec!['(', 'a', 's', ' '];
    let suffix = vec![' ', 'U', 'n', 's', 'p', 'e', 'c', 'i', 'f', 'i', 'e', 'd', ')'];
    let mut k: usize = 0;
    while k < 4
        invariant
            n == a@.len(),
            n >= 18,
            prefix@ == as_prefix(),
            k <= 4,
            forall|j: int| 0 <= j < k ==> a@[j] == prefix@[j],
        decreases 4 - k,
    {
        if a[k] != prefix[k] {
            proof {
                assert(a@.take(4)[k as int] != as_prefix()[k as int]);
            }
            return false;
        }
        k = k + 1;
    }
    proof {
        assert(a@.take(4) =~= as_prefix());
    }
    k = 0;
    while k < 13
        invariant
            n == a@.len(),
            n >= 18,
            suffix@ == unspecified_suffix(),
            k <= 13,
            forall|j: int| 0 <= j < k ==> a@[n - 13 + j] == suffix@[j],
        decreases 13 - k,
    {
        if a[n - 13 + k] != suffix[k] {
            proof {
                assert(a@.skip(n - 13)[k as int] != unspecified_suffix()[k as int]);
            }
            return false;
        }
        k = k + 1;
    }
    proof {
        assert(a@.skip(n - 13) =~= unspecified_suffix());
    }
    if a[4] != '@' {
        return false;
    }
    k = 4;
    while k < n - 13
        invariant
            n == a@.len(),
            n >= 18,
            4 <= k <= n - 13,
            forall|j: int| 4 <= j < k ==> #[trigger] a@[j] != ' ' && a@[j] != '(' && a@[j] != ')',
        decreases n - 13 - k,
    {
        if a[k] == ' ' || a[k] == '(' || a[k] == ')' {
            return false;
        }
        k = k + 1;
    }
    true
}


proof fn lemma_digit_char(d: nat)
    requires
        d < 16,
    ensures
        digit_value(digit_char(d)) == d,
        d < 10 ==> '0' <= digit_char(d) && digit_char(d) <= '9',
{
}

proof fn lemma_binary_digits(v: nat, w: nat)
    requires
        v < two_pow(w),
    ensures
        binary_digits(v, w).len() == w,
        all_digits(binary_digits(v, w), 2),
        numeral_value(binary_digits(v, w), 2) == v,
    decreases w,
{
    if w > 0 {
        let rest = binary_digits(v / 2, (w - 1) as nat);
        lemma_binary_digits(v / 2, (w - 1) as nat);
        lemma_digit_char(v % 2);
        let s = binary_digits(v, w);
        assert(s.drop_last() =~= rest);
        assert forall|k: int| 0 <= k < s.len() implies digit_value(#[trigger] s[k]) < 2 by {
            if k < s.len() - 1 {
                assert(s[k] == rest[k]);
            }
        }
    }
}

pub proof fn lemma_decimal_digits(v: nat)
    ensures
        decimal_digits(v).len() > 0,
        all_digits(decimal_digits(v), 10),
        numeral_value(decimal_digits(v), 10) == v,
        '0' <= decimal_digits(v)[0] && decimal_digits(v)[0] <= '9',
    decreases v,
{
    let s = decimal_digits(v);
    if v < 10 {
        lemma_digit_char(v);
        assert(s.drop_last() =~= seq![]);
        assert(numeral_value(s.drop_last(), 10) == 0);
        assert(numeral_value(s, 10) == 10 * numeral_value(s.drop_last(), 10) + digit_value(s.last()));
    } else {
        let rest = decimal_digits(v / 10);
        lemma_decimal_digits(v / 10);
        lemma_digit_char(v % 10);
        assert(s.drop_last() =~= rest);
        assert(numeral_value(s, 10) == 10 * numeral_value(rest, 10) + digit_value(s.last()));
        assert(10 * (v / 10) + v % 10 == v) by (nonlinear_arith);
        assert(s[0] == rest[0]);
        assert forall|k: int| 0 <= k < s.len() implies digit_value(#[trigger] s[k]) < 10 by {
            if k < s.len() - 1 {
                assert(s[k] == rest[k]);
            }
        }
    }
}

/// Reading back the text of an encodable constant gives the constant again,
/// for booleans, non-negative integers and bit vectors. (A negative integer
/// is printed as the term `(- n)`, which is no literal.)
pub proof fn lemma_const_round_trip(c: Const)
    requires
        encodable(c),
        c matches Const::Int(v) ==> v >= 0,
    ensures
        literal_const(const_text(c)) == Ok::<Const, LiteralError>(c),
{
    let a = const_text(c);
    match c {
        Const::Bool(b) => {
            if !b {
                assert(false_text()[0] != true_text()[0]);
            }
        },
        Const::Int(v) => {
            lemma_decimal_digits(v as nat);
            assert(a[0] != 't' && a[0] != 'f' && a[0] != '#');
            assert(a != true_text() && a != false_text()) by {
                if a == true_text() {
                    assert(a[0] == 't');
                }
                if a == false_text() {
                    assert(a[0] == 'f');
                }
            }
        },
        Const::BitVector(w, v) => {
            lemma_binary_digits(v as nat, w as nat);
            let d = binary_digits(v as nat, w as nat);
            assert(a[0] == '#' && a[1] == 'b');
            assert(a.skip(2) =~= d);
            assert(a != true_text() && a != false_text()) by {
                if a == true_text() {
                    assert(a[0] == 't');
                }
                if a == false_text() {
                    assert(a[0] == 'f');
                }
            }
        },
        Const::Unspecified => {},
    }
}


/// Every `u128` is below `2^w` for `w >= 128`.
pub proof fn lemma_two_pow_128(w: nat)
    requires
        w >= 128,
    ensures
        u128::MAX < two_pow(w),
    decreases w,
{
    if w > 128 {
        lemma_two_pow_128((w - 1) as nat);
    } else {
        lemma_two_pow_shift(128);
    }
}

/// `2^w` as a shift of one, for `w < 128`; at `w = 128` it is `u128::MAX + 1`.
pub proof fn lemma_two_pow_shift(w: nat)
    requires
        w <= 128,
    ensures
        w < 128 ==> two_pow(w) == (1u128 << (w as u128)) as nat,
        w == 128 ==> two_pow(w) == u128::MAX as nat + 1,
    decreases w,
{
    if w > 0 {
        lemma_two_pow_shift((w - 1) as nat);
        let p = (w - 1) as u128;
        if w < 128 {
            assert((1u128 << (p + 1)) == 2 * (1u128 << p)) by (bit_vector)
                requires p < 127;
        } else {
            assert((1u128 << p) == 0x8000_0000_0000_0000_0000_0000_0000_0000u128) by (bit_vector)
                requires p == 127;
        }
    } else {
        assert((1u128 << 0u128) == 1) by (bit_vector);
    }
}

pub proof fn lemma_shift_is_two_pow(w: nat)
    requires
        w < 128,
    ensures
        two_pow(w) == (1u128 << (w as u128)) as nat,
{
    lemma_two_pow_shift(w);
}


/// The `n` low hexadecimal digits of `v`, most significant first.
pub open spec fn hex_digits(v: nat, n: nat) -> Seq<char>
    decreases n,
{
    if n == 0 {
        seq![]
    } else {
        hex_digits(v / 16, (n - 1) as nat).push(digit_char(v % 16))
    }
}

proof fn lemma_two_pow_nibble(n: nat)
    ensures
        two_pow(4 * n) == 16 * two_pow(4 * (n - 1) as nat) || n == 0,
{
    if n > 0 {
        let m = (4 * (n - 1)) as nat;
        assert(4 * n == m + 4);
        assert(two_pow(m + 4) == 2 * two_pow(m + 3));
        assert(two_pow(m + 3) == 2 * two_pow(m + 2));
        assert(two_pow(m + 2) == 2 * two_pow(m + 1));
        assert(two_pow(m + 1) == 2 * two_pow(m));
    }
}

proof fn lemma_hex_digits(v: nat, n: nat)
    requires
        v < two_pow(4 * n),
    ensures
        hex_digits(v, n).len() == n,
        all_digits(hex_digits(v, n), 16),
        numeral_value(hex_digits(v, n), 16) == v,
    decreases n,
{
    if n > 0 {
        lemma_two_pow_nibble(n);
        let rest = hex_digits(v / 16, (n - 1) as nat);
        let q = two_pow(4 * (n - 1) as nat);
        assert(v / 16 < q) by (nonlinear_arith)
            requires v < 16 * q;
        lemma_hex_digits(v / 16, (n - 1) as nat);
        lemma_digit_char(v % 16);
        let s = hex_digits(v, n);
        assert(s.drop_last() =~= rest);
        assert(numeral_value(s, 16) == 16 * numeral_value(rest, 16) + digit_value(s.last()));
        assert(16 * (v / 16) + v % 16 == v) by (nonlinear_arith);
        assert forall|k: int| 0 <= k < s.len() implies digit_value(#[trigger] s[k]) < 16 by {
            if k < s.len() - 1 {
                assert(s[k] == rest[k]);
            }
        }
    } else {
        assert(two_pow(0) == 1);
    }
}

/// A bit vector whose width is a multiple of four, echoed by a solver in
/// hexadecimal (`#x` and one digit per four bits), reads back as itself.
pub proof fn lemma_hex_round_trip(w: usize, v: u128)
    requires
        1 <= w <= 128,
        w % 4 == 0,
        (v as nat) < two_pow(w as nat),
    ensures
        literal_const(seq!['#', 'x'] + hex_digits(v as nat, (w / 4) as nat)) == Ok::<Const, LiteralError>(Const::BitVector(w, v)),
{
    let n = (w / 4) as nat;
    assert(4 * n == w as nat);
    lemma_hex_digits(v as nat, n);
    let d = hex_digits(v as nat, n);
    let a = seq!['#', 'x'] + d;
    assert(a[0] == '#' && a[1] == 'x');
    assert(a.skip(2) =~= d);
    assert(a != true_text() && a != false_text()) by {
        if a == true_text() {
            assert(a[0] == 't');
        }
        if a == false_text() {
            assert(a[0] == 'f');
        }
    }
}

} // verus!
