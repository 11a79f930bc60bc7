//! Verification of instruction-selection rewrite rules.
//!
//! - `types`: the types of verification-condition expressions and their
//!   partial order, and constants.
//! - `expr`, `conditions`: the interning table of scalar expressions, the
//!   assumptions and assertions of one expansion, and the laws that models of
//!   them obey.
//! - `symbolic`, `spec`, `lowering`, `constrain`: symbolic values, term
//!   contracts, and how calls, spec expressions, state defaults and pattern
//!   constraints become conditions.
//! - `trie`: the rules of a term, the overlap check and the choice of the rule
//!   that fires.
//! - `literal`, `smt`, `circuit`, `encode`: SMT-LIB text of constants, terms
//!   and conditions, literals read back from models, rotations by a dynamic
//!   amount, and the circuit that counts leading zeros.
//! - `solver`, `select`: verdicts drawn from solver answers, and the choice of
//!   expansions and solver backends.
pub mod types;
pub mod expr;
pub mod symbolic;
pub mod spec;
pub mod conditions;
pub mod lowering;
pub mod constrain;
pub mod literal;
pub mod smt;
pub mod circuit;
pub mod trie;
pub mod solver;
pub mod select;
pub mod encode;
