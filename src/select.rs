//! Which expansions to verify, and with which solver.
use vstd::prelude::*;
use crate::literal::{decimal_chars, decimal_digits, string_of};

verus! {

/// A solver program.
#[derive(Clone, Copy, Debug, PartialEq, Eq, Structural)]
pub enum SolverBackend {
    Z3,
    CVC5,
}

pub open spec fn z3_text() -> Seq<char> {
    seq!['z', '3']
}

pub open spec fn cvc5_text() -> Seq<char> {
    seq!['c', 'v', 'c', '5']
}

/// Command-line arguments of a backend that reads SMT-LIB from standard
/// input with a per-query timeout of `ms` milliseconds.
pub open spec fn backend_args(b: SolverBackend, ms: nat) -> Seq<Seq<char>> {
    match b {
        SolverBackend::Z3 => seq![
            seq!['-', 's', 'm', 't', '2'],
            seq!['-', 'i', 'n'],
            seq!['-', 't', ':'] + decimal_digits(ms),
        ],
        SolverBackend::CVC5 => seq![
            seq!['-', '-', 'i', 'n', 'c', 'r', 'e', 'm', 'e', 'n', 't', 'a', 'l'],
            seq!['-', '-', 'p', 'r', 'i', 'n', 't', '-', 's', 'u', 'c', 'c', 'e', 's', 's'],
            seq!['-', '-', 't', 'l', 'i', 'm', 'i', 't', '-', 'p', 'e', 'r', '='] + decimal_digits(ms),
            seq!['-'],
        ],
    }
}

fn text_of(cs: &Vec<char>) -> (r: String)
    ensures
        r@ == cs@,
{
    string_of(cs)
}

fn chars_with_number(prefix: Vec<char>, ms: u64) -> (r: String)
    ensures
        r@ == prefix@ + decimal_digits(ms as nat),
{
    let digits = decimal_chars(ms as u128);
    let mut cs = prefix;
    let mut i: usize = 0;
    while i < digits.len()
        invariant
            i <= digits@.len(),
            cs@ == prefix@ + digits@.take(i as int),
        decreases digits@.len() - i,
    {
        cs.push(digits[i]);
        proof {
            assert(digits@.take(i as int + 1) =~= digits@.take(i as int).push(digits@[i as int]));
        }
        i = i + 1;
    }
    proof {
        assert(digits@.take(digits@.len() as int) =~= digits@);
    }
    text_of(&cs)
}

impl SolverBackend {
    /// Name of the solver program.
    pub fn prog(&self) -> (r: String)
        ensures
            r@ == (match *self {
                SolverBackend::Z3 => z3_text(),
                SolverBackend::CVC5 => cvc5_text(),
            }),
    {
        match self {
            SolverBackend::Z3 => text_of(&vec!['z', '3']),
            SolverBackend::CVC5 => text_of(&vec!['c', 'v', 'c', '5']),
        }
    }

    /// The backend a name stands for.
    pub fn from_name(s: &str) -> (r: Option<SolverBackend>)
        ensures
            r == (if s@ == z3_text() {
                Some(SolverBackend::Z3)
            } else if s@ == cvc5_text() {
                Some(SolverBackend::CVC5)
            } else {
                None
            }),
    {
        let n = vstd::string::StrSliceExecFns::unicode_len(s);
        if n == 2 && vstd::string::StrSliceExecFns::get_char(s, 0) == 'z'
            && vstd::string::StrSliceExecFns::get_char(s, 1) == '3' {
            proof {
                assert(s@ =~= z3_text());
            }
            return Some(SolverBackend::Z3);
        }
        if n == 4 && vstd::string::StrSliceExecFns::get_char(s, 0) == 'c'
            && vstd::string::StrSliceExecFns::get_char(s, 1) == 'v'
            && vstd::string::StrSliceExecFns::get_char(s, 2) == 'c'
            && vstd::string::StrSliceExecFns::get_char(s, 3) == '5' {
            proof {
                assert(s@ =~= cvc5_text());
            }
            return Some(SolverBackend::CVC5);
        }
        proof {
            if s@ == z3_text() {
                assert(s@[0] == 'z' && s@[1] == '3');
            }
            if s@ == cvc5_text() {
                assert(s@[0] == 'c' && s@[1] == 'v' && s@[2] == 'c' && s@[3] == '5');
            }
        }
        None
    }

    /// Command-line arguments for a per-query timeout of `timeout_ms`.
    pub fn args(&self, timeout_ms: u64) -> (r: Vec<String>)
        ensures
            r@.len() == backend_args(*self, timeout_ms as nat).len(),
            forall|i: int| 0 <= i < r@.len() ==> (#[trigger] r@[i])@ == backend_args(*self, timeout_ms as nat)[i],
    {
        let mut r: Vec<String> = Vec::new();
        match self {
            SolverBackend::Z3 => {
                r.push(text_of(&vec!['-', 's', 'm', 't', '2']));
                r.push(text_of(&vec!['-', 'i', 'n']));
                r.push(chars_with_number(vec!['-', 't', ':'], timeout_ms));
            },
            SolverBackend::CVC5 => {
                r.push(text_of(&vec!['-', '-', 'i', 'n', 'c', 'r', 'e', 'm', 'e', 'n', 't', 'a', 'l']));
                r.push(text_of(&vec!['-', '-', 'p', 'r', 'i', 'n', 't', '-', 's', 'u', 'c', 'c', 'e', 's', 's']));
                r.push(chars_with_number(vec!['-', '-', 't', 'l', 'i', 'm', 'i', 't', '-', 'p', 'e', 'r', '='], timeout_ms));
                r.push(text_of(&vec!['-']));
            },
        }
        r
    }
}

/// A predicate on expansions.
#[derive(Debug)]
pub enum ExpansionPredicate {
    /// The first rule of the expansion has a name.
    FirstRuleNamed,
    /// Every term of the expansion has a spec.
    Specified,
    /// The expansion carries this tag.
    Tagged(String),
    /// The expansion's root term has this name.
    Root(String),
    /// The expansion uses the rule with this identifier.
    ContainsRule(String),
    Not(Box<ExpansionPredicate>),
    And(Box<ExpansionPredicate>, Box<ExpansionPredicate>),
}

/// What the predicates read of an expansion.
#[derive(Debug)]
pub struct ExpansionFacts {
    pub first_rule_named: bool,
    pub specified: bool,
    pub tags: Vec<String>,
    pub root: String,
    pub rules: Vec<String>,
}

/// Some string of `s` is `x`.
pub open spec fn has_string(s: Seq<String>, x: Seq<char>) -> bool {
    exists|k: int| 0 <= k < s.len() && (#[trigger] s[k])@ == x
}

/// Whether `p` holds of an expansion with facts `f`.
pub open spec fn holds(p: ExpansionPredicate, f: ExpansionFacts) -> bool
    decreases p,
{
    match p {
        ExpansionPredicate::FirstRuleNamed => f.first_rule_named,
        ExpansionPredicate::Specified => f.specified,
        ExpansionPredicate::Tagged(t) => has_string(f.tags@, t@),
        ExpansionPredicate::Root(r) => f.root@ == r@,
        ExpansionPredicate::ContainsRule(r) => has_string(f.rules@, r@),
        ExpansionPredicate::Not(q) => !holds(*q, f),
        ExpansionPredicate::And(q, r) => holds(*q, f) && holds(*r, f),
    }
}

fn contains_string(s: &Vec<String>, x: &String) -> (r: bool)
    ensures
        r == has_string(s@, x@),
{
    let mut k: usize = 0;
    while k < s.len()
        invariant
            k <= s@.len(),
            forall|l: int| 0 <= l < k ==> (#[trigger] s@[l])@ != x@,
        decreases s@.len() - k,
    {
        if s[k] == *x {
            return true;
        }
        k = k + 1;
    }
    false
}

/// Evaluate a predicate on an expansion.
pub fn eval_predicate(p: &ExpansionPredicate, f: &ExpansionFacts) -> (r: bool)
    ensures
        r == holds(*p, *f),
    decreases p,
{
    match p {
        ExpansionPredicate::FirstRuleNamed => f.first_rule_named,
        ExpansionPredicate::Specified => f.specified,
        ExpansionPredicate::Tagged(t) => contains_string(&f.tags, t),
        ExpansionPredicate::Root(r) => f.root == *r,
        ExpansionPredicate::ContainsRule(r) => contains_string(&f.rules, r),
        ExpansionPredicate::Not(q) => !eval_predicate(q, f),
        ExpansionPredicate::And(q, r) => eval_predicate(q, f) && eval_predicate(r, f),
    }
}

/// Select or reject the expansions a predicate selects.
#[derive(Debug)]
pub struct Filter {
    pub selects: bool,
    pub predicate: ExpansionPredicate,
}

/// The verdict of filters `fs`: the last filter whose predicate holds
/// decides; with none, the expansion is not verified.
pub open spec fn filters_verdict(fs: Seq<Filter>, f: ExpansionFacts) -> bool
    decreases fs.len(),
{
    if fs.len() == 0 {
        false
    } else if holds(fs.last().predicate, f) {
        fs.last().selects
    } else {
        filters_verdict(fs.drop_last(), f)
    }
}

/// Whether filters select an expansion for verification.
pub fn should_verify(filters: &Vec<Filter>, f: &ExpansionFacts) -> (r: bool)
    ensures
        r == filters_verdict(filters@, *f),
{
    let mut k: usize = filters.len();
    proof {
        assert(filters@.take(k as int) =~= filters@);
    }
    while k > 0
        invariant
            k <= filters@.len(),
            filters_verdict(filters@, *f) == filters_verdict(filters@.take(k as int), *f),
        decreases k,
    {
        let last = k - 1;
        proof {
            assert(filters@.take(k as int).drop_last() =~= filters@.take(last as int));
            assert(filters@.take(k as int).last() == filters@[last as int]);
        }
        if eval_predicate(&filters[last].predicate, f) {
            return filters[last].selects;
        }
        k = last;
    }
    proof {
        assert(filters@.take(0) =~= Seq::<Filter>::empty());
    }
    false
}

/// A rule choosing a backend for the expansions a predicate selects.
#[derive(Debug)]
pub struct SolverRule {
    pub predicate: ExpansionPredicate,
    pub solver_backend: SolverBackend,
}

/// The backend rules `rs` choose: that of the first rule whose predicate
/// holds, else `default`.
pub open spec fn chosen_backend(rs: Seq<SolverRule>, default: SolverBackend, f: ExpansionFacts) -> SolverBackend
    decreases rs.len(),
{
    if rs.len() == 0 {
        default
    } else if holds(rs[0].predicate, f) {
        rs[0].solver_backend
    } else {
        chosen_backend(rs.drop_first(), default, f)
    }
}

/// Choose the solver backend for an expansion.
pub fn select_solver_backend(rules: &Vec<SolverRule>, default: SolverBackend, f: &ExpansionFacts) -> (r: SolverBackend)
    ensures
        r == chosen_backend(rules@, default, *f),
{
    let mut k: usize = 0;
    proof {
        assert(rules@.skip(0) =~= rules@);
    }
    while k < rules.len()
        invariant
            k <= rules@.len(),
            chosen_backend(rules@, default, *f) == chosen_backend(rules@.skip(k as int), default, *f),
        decreases rules@.len() - k,
    {
        proof {
            assert(rules@.skip(k as int).drop_first() =~= rules@.skip(k as int + 1));
            assert(rules@.skip(k as int)[0] == rules@[k as int]);
        }
        if eval_predicate(&rules[k].predicate, f) {
            return rules[k].solver_backend;
        }
        k = k + 1;
    }
    proof {
        assert(rules@.skip(rules@.len() as int) =~= Seq::<SolverRule>::empty());
    }
    default
}

/// Rules that select each backend for expansions tagged `solver_<name>`.
pub fn solver_tag_rules() -> (r: Vec<SolverRule>)
    ensures
        r@.len() == 2,
        r@[0].solver_backend == SolverBackend::Z3,
        r@[0].predicate matches ExpansionPredicate::Tagged(t) && t@ == seq!['s', 'o', 'l', 'v', 'e', 'r', '_'] + z3_text(),
        r@[1].solver_backend == SolverBackend::CVC5,
        r@[1].predicate matches ExpansionPredicate::Tagged(t) && t@ == seq!['s', 'o', 'l', 'v', 'e', 'r', '_'] + cvc5_text(),
{
    let z3 = text_of(&vec!['s', 'o', 'l', 'v', 'e', 'r', '_', 'z', '3']);
    let cvc5 = text_of(&vec!['s', 'o', 'l', 'v', 'e', 'r', '_', 'c', 'v', 'c', '5']);
    proof {
        assert(z3@ =~= seq!['s', 'o', 'l', 'v', 'e', 'r', '_'] + z3_text());
        assert(cvc5@ =~= seq!['s', 'o', 'l', 'v', 'e', 'r', '_'] + cvc5_text());
    }
    vec![
        SolverRule { predicate: ExpansionPredicate::Tagged(z3), solver_backend: SolverBackend::Z3 },
        SolverRule { predicate: ExpansionPredicate::Tagged(cvc5), solver_backend: SolverBackend::CVC5 },
    ]
}


/// Why a predicate could not be read.
#[derive(Clone, Copy, Debug, PartialEq, Eq, Structural)]
pub struct InvalidPredicate;

pub open spec fn not_prefix() -> Seq<char> {
    seq!['n', 'o', 't', ':']
}

pub open spec fn tag_prefix() -> Seq<char> {
    seq!['t', 'a', 'g', ':']
}

pub open spec fn root_prefix() -> Seq<char> {
    seq!['r', 'o', 'o', 't', ':']
}

pub open spec fn rule_prefix() -> Seq<char> {
    seq!['r', 'u', 'l', 'e', ':']
}

pub open spec fn first_rule_named_text() -> Seq<char> {
    seq!['f', 'i', 'r', 's', 't', '-', 'r', 'u', 'l', 'e', '-', 'n', 'a', 'm', 'e', 'd']
}

pub open spec fn specified_text() -> Seq<char> {
    seq!['s', 'p', 'e', 'c', 'i', 'f', 'i', 'e', 'd']
}

pub open spec fn starts_with(s: Seq<char>, p: Seq<char>) -> bool {
    p.len() <= s.len() && s.take(p.len() as int) == p
}

/// `i` is the first comma of `s`.
pub open spec fn first_comma(s: Seq<char>, i: int) -> bool {
    &&& 0 <= i < s.len()
    &&& s[i] == ','
    &&& forall|k: int| 0 <= k < i ==> s[k] != ','
}

pub open spec fn has_comma(s: Seq<char>) -> bool {
    exists|i: int| 0 <= i < s.len() && s[i] == ','
}

/// A word of the predicate language with no comma and no `not:` prefix:
/// its predicate, if it is one.
pub open spec fn atom_kind(s: Seq<char>) -> int {
    if s == first_rule_named_text() {
        0
    } else if s == specified_text() {
        1
    } else if starts_with(s, tag_prefix()) {
        2
    } else if starts_with(s, root_prefix()) {
        3
    } else if starts_with(s, rule_prefix()) {
        4
    } else {
        5
    }
}

/// `s` reads as a predicate: `p,q` (split at the first comma) is a
/// conjunction, `not:p` a negation, and the words `first-rule-named`,
/// `specified`, `tag:T`, `root:T` and `rule:T` the base predicates.
pub open spec fn readable(s: Seq<char>) -> bool
    decreases s.len(),
{
    if has_comma(s) {
        let i = choose|i: int| first_comma(s, i);
        first_comma(s, i) && readable(s.take(i)) && readable(s.skip(i + 1))
    } else if starts_with(s, not_prefix()) {
        readable(s.skip(4))
    } else {
        atom_kind(s) < 5
    }
}

/// `p` is what `s` reads as.
pub open spec fn reads_as(s: Seq<char>, p: ExpansionPredicate) -> bool
    decreases p,
{
    if has_comma(s) {
        match p {
            ExpansionPredicate::And(a, b) => {
                let i = choose|i: int| first_comma(s, i);
                reads_as(s.take(i), *a) && reads_as(s.skip(i + 1), *b)
            },
            _ => false,
        }
    } else if starts_with(s, not_prefix()) {
        match p {
            ExpansionPredicate::Not(q) => reads_as(s.skip(4), *q),
            _ => false,
        }
    } else {
        match p {
            ExpansionPredicate::FirstRuleNamed => atom_kind(s) == 0,
            ExpansionPredicate::Specified => atom_kind(s) == 1,
            ExpansionPredicate::Tagged(t) => atom_kind(s) == 2 && t@ == s.skip(4),
            ExpansionPredicate::Root(t) => atom_kind(s) == 3 && t@ == s.skip(5),
            ExpansionPredicate::ContainsRule(t) => atom_kind(s) == 4 && t@ == s.skip(5),
            _ => false,
        }
    }
}

fn range_chars(cs: &Vec<char>, lo: usize, hi: usize) -> (r: Vec<char>)
    requires
        lo <= hi <= cs@.len(),
    ensures
        r@ == cs@.subrange(lo as int, hi as int),
{
    let mut r: Vec<char> = Vec::new();
    let mut i: usize = lo;
    while i < hi
        invariant
            lo <= i <= hi <= cs@.len(),
            r@ == cs@.subrange(lo as int, i as int),
        decreases hi - i,
    {
        r.push(cs[i]);
        proof {
            assert(cs@.subrange(lo as int, i as int + 1) =~= cs@.subrange(lo as int, i as int).push(cs@[i as int]));
        }
        i = i + 1;
    }
    r
}

fn range_starts_with(cs: &Vec<char>, lo: usize, hi: usize, p: &Vec<char>) -> (r: bool)
    requires
        lo <= hi <= cs@.len(),
    ensures
        r == starts_with(cs@.subrange(lo as int, hi as int), p@),
{
    let s = Ghost(cs@.subrange(lo as int, hi as int));
    if p.len() > hi - lo {
        return false;
    }
    let mut k: usize = 0;
    while k < p.len()
        invariant
            lo <= hi <= cs@.len(),
            p@.len() <= hi - lo,
            s@ == cs@.subrange(lo as int, hi as int),
            k <= p@.len(),
            forall|j: int| 0 <= j < k ==> s@[j] == p@[j],
        decreases p@.len() - k,
    {
        if cs[lo + k] != p[k] {
            proof {
                assert(s@.take(p@.len() as int)[k as int] != p@[k as int]);
            }
            return false;
        }
        k = k + 1;
    }
    proof {
        assert(s@.take(p@.len() as int) =~= p@);
    }
    true
}

fn range_equals(cs: &Vec<char>, lo: usize, hi: usize, p: &Vec<char>) -> (r: bool)
    requires
        lo <= hi <= cs@.len(),
    ensures
        r == (cs@.subrange(lo as int, hi as int) == p@),
{
    if hi - lo != p.len() {
        return false;
    }
    let b = range_starts_with(cs, lo, hi, p);
    proof {
        let s = cs@.subrange(lo as int, hi as int);
        assert(s.take(p@.len() as int) =~= s);
    }
    b
}

/// Read the predicate in `cs[lo..hi]`.
fn parse_range(cs: &Vec<char>, lo: usize, hi: usize) -> (r: Result<ExpansionPredicate, InvalidPredicate>)
    requires
        lo <= hi <= cs@.len(),
    ensures
        r is Ok <==> readable(cs@.subrange(lo as int, hi as int)),
        r matches Ok(p) ==> reads_as(cs@.subrange(lo as int, hi as int), p),
    decreases hi - lo,
{
    let ghost s = cs@.subrange(lo as int, hi as int);
    let mut i: usize = lo;
    while i < hi
        invariant
            lo <= i <= hi <= cs@.len(),
            s == cs@.subrange(lo as int, hi as int),
            forall|k: int| 0 <= k < i - lo ==> s[k] != ',',
        decreases hi - i,
    {
        if cs[i] == ',' {
            proof {
                let c = (i - lo) as int;
                assert(first_comma(s, c));
                assert(has_comma(s));
                let j = choose|j: int| first_comma(s, j);
                assert(j == c) by {
                    if j < c {
                        assert(s[j] != ',');
                    }
                    if j > c {
                        assert(s[c] != ',');
                    }
                }
                assert(s.take(c) =~= cs@.subrange(lo as int, i as int));
                assert(s.skip(c + 1) =~= cs@.subrange(i as int + 1, hi as int));
            }
            let a = parse_range(cs, lo, i)?;
            let b = match parse_range(cs, i + 1, hi) {
                Ok(b) => b,
                Err(e) => return Err(e),
            };
            proof {
                let c = (i - lo) as int;
                assert(s.take(c) =~= cs@.subrange(lo as int, i as int));
                assert(s.skip(c + 1) =~= cs@.subrange(i as int + 1, hi as int));
                assert(first_comma(s, c));
                assert(has_comma(s));
                assert(reads_as(s.take(c), a));
                assert(reads_as(s.skip(c + 1), b));

            }
            return Ok(ExpansionPredicate::And(Box::new(a), Box::new(b)));
        }
        i = i + 1;
    }
    proof {
        assert(!has_comma(s)) by {
            if has_comma(s) {
                let k = choose|k: int| 0 <= k < s.len() && s[k] == ',';
                assert(s[k] != ',');
            }
        }
    }
    if range_starts_with(cs, lo, hi, &vec!['n', 'o', 't', ':']) {
        proof {
            assert(s.skip(4) =~= cs@.subrange(lo as int + 4, hi as int));
        }
        let q = parse_range(cs, lo + 4, hi)?;
        return Ok(ExpansionPredicate::Not(Box::new(q)));
    }
    if range_equals(cs, lo, hi, &vec!['f', 'i', 'r', 's', 't', '-', 'r', 'u', 'l', 'e', '-', 'n', 'a', 'm', 'e', 'd']) {
        return Ok(ExpansionPredicate::FirstRuleNamed);
    }
    if range_equals(cs, lo, hi, &vec!['s', 'p', 'e', 'c', 'i', 'f', 'i', 'e', 'd']) {
        return Ok(ExpansionPredicate::Specified);
    }
    if range_starts_with(cs, lo, hi, &vec!['t', 'a', 'g', ':']) {
        let t = range_chars(cs, lo + 4, hi);
        proof {
            assert(s.skip(4) =~= t@);
        }
        return Ok(ExpansionPredicate::Tagged(string_of(&t)));
    }
    if range_starts_with(cs, lo, hi, &vec!['r', 'o', 'o', 't', ':']) {
        let t = range_chars(cs, lo + 5, hi);
        proof {
            assert(s.skip(5) =~= t@);
        }
        return Ok(ExpansionPredicate::Root(string_of(&t)));
    }
    if range_starts_with(cs, lo, hi, &vec!['r', 'u', 'l', 'e', ':']) {
        let t = range_chars(cs, lo + 5, hi);
        proof {
            assert(s.skip(5) =~= t@);
        }
        return Ok(ExpansionPredicate::ContainsRule(string_of(&t)));
    }
    Err(InvalidPredicate)
}

impl ExpansionPredicate {
    /// Read a predicate: `p,q` (split at the first comma) is a conjunction,
    /// `not:p` a negation, and `first-rule-named`, `specified`, `tag:T`,
    /// `root:T` and `rule:T` the base predicates.
    pub fn parse(s: &str) -> (r: Result<ExpansionPredicate, InvalidPredicate>)
        ensures
            r is Ok <==> readable(s@),
            r matches Ok(p) ==> reads_as(s@, p),
    {
        let mut cs: Vec<char> = Vec::new();
        crate::smt::push_str(&mut cs, s);
        proof {
            assert(cs@.subrange(0, cs@.len() as int) =~= s@);
        }
        parse_range(&cs, 0, cs.len())
    }
}


pub open spec fn select_prefix() -> Seq<char> {
    seq!['i', 'n', 'c', 'l', 'u', 'd', 'e', ':']
}

pub open spec fn reject_prefix() -> Seq<char> {
    seq!['e', 'x', 'c', 'l', 'u', 'd', 'e', ':']
}

/// The predicate text of a filter, after its optional mode prefix.
pub open spec fn filter_body(s: Seq<char>) -> Seq<char> {
    if starts_with(s, select_prefix()) || starts_with(s, reject_prefix()) {
        s.skip(8)
    } else {
        s
    }
}

impl Filter {
    /// Read a filter: a predicate, optionally prefixed by a mode that
    /// selects (the default) or rejects the expansions it holds of.
    pub fn parse(s: &str) -> (r: Result<Filter, InvalidPredicate>)
        ensures
            r is Ok <==> readable(filter_body(s@)),
            r matches Ok(f) ==> f.selects == !starts_with(s@, reject_prefix()) && reads_as(filter_body(s@), f.predicate),
    {
        let mut cs: Vec<char> = Vec::new();
        crate::smt::push_str(&mut cs, s);
        let n = cs.len();
        let sel = range_starts_with(&cs, 0, n, &vec!['i', 'n', 'c', 'l', 'u', 'd', 'e', ':']);
        let rej = range_starts_with(&cs, 0, n, &vec!['e', 'x', 'c', 'l', 'u', 'd', 'e', ':']);
        proof {
            assert(cs@.subrange(0, n as int) =~= s@);
            if rej {
                assert(!sel) by {
                    if sel {
                        assert(s@.take(8)[0] == select_prefix()[0]);
                    }
                }
            }
        }
        let lo: usize = if sel || rej { 8 } else { 0 };
        proof {
            assert(cs@.subrange(lo as int, n as int) =~= filter_body(s@));
        }
        let predicate = parse_range(&cs, lo, n)?;
        Ok(Filter { selects: !rej, predicate })
    }
}

/// `i` is the first `=` of `s`.
pub open spec fn first_equals(s: Seq<char>, i: int) -> bool {
    &&& 0 <= i < s.len()
    &&& s[i] == '='
    &&& forall|k: int| 0 <= k < i ==> s[k] != '='
}

/// `s` reads as a solver rule: a backend name, `=`, and a predicate.
pub open spec fn rule_readable(s: Seq<char>) -> bool {
    exists|i: int| #[trigger] first_equals(s, i)
        && (s.take(i) == z3_text() || s.take(i) == cvc5_text())
        && readable(s.skip(i + 1))
}

impl SolverRule {
    /// Read a solver rule `backend=predicate`, split at the first `=`.
    pub fn parse(s: &str) -> (r: Result<SolverRule, InvalidPredicate>)
        ensures
            r is Ok <==> rule_readable(s@),
            r matches Ok(rule) ==> exists|i: int| {
                &&& 0 <= i < s@.len()
                &&& s@[i] == '='
                &&& (forall|k: int| 0 <= k < i ==> s@[k] != '=')
                &&& (s@.take(i) == z3_text() ==> rule.solver_backend == SolverBackend::Z3)
                &&& (s@.take(i) == cvc5_text() ==> rule.solver_backend == SolverBackend::CVC5)
                &&& (s@.take(i) == z3_text() || s@.take(i) == cvc5_text())
                &&& #[trigger] reads_as(s@.skip(i + 1), rule.predicate)
            },
            (forall|k: int| 0 <= k < s@.len() ==> s@[k] != '=') ==> r is Err,
    {
        let mut cs: Vec<char> = Vec::new();
        crate::smt::push_str(&mut cs, s);
        let n = cs.len();
        let mut i: usize = 0;
        while i < n
            invariant
                n == cs@.len(),
                cs@ == s@,
                i <= n,
                forall|k: int| 0 <= k < i ==> s@[k] != '=',
            decreases n - i,
        {
            if cs[i] == '=' {
                let name = string_of(&range_chars(&cs, 0, i));
                proof {
                    assert(s@.take(i as int) =~= cs@.subrange(0, i as int));
                    assert(s@.skip(i as int + 1) =~= cs@.subrange(i as int + 1, n as int));
                    assert(first_equals(s@, i as int));
                    assert forall|j: int| #[trigger] first_equals(s@, j) implies j == i by {
                        if j < i {
                            assert(s@[j] != '=');
                        }
                        if j > i {
                            assert(s@[i as int] != '=');
                        }
                    }
                }
                let backend = match SolverBackend::from_name(name.as_str()) {
                    Some(b) => b,
                    None => return Err(InvalidPredicate),
                };
                let predicate = parse_range(&cs, i + 1, n)?;
                return Ok(SolverRule { predicate, solver_backend: backend });
            }
            i = i + 1;
        }
        proof {
            assert forall|j: int| !(#[trigger] first_equals(s@, j)) by {
                if 0 <= j < s@.len() {
                    assert(s@[j] != '=');
                }
            }
        }
        Err(InvalidPredicate)
    }
}

} // verus!
