//! Static analysis by abstract interpretation of a small imperative
//! language with integer variables, assignments, conditionals, loops,
//! assertions, `rand`, `print` and `halt`.
//!
//! The pieces: an AVL map from symbols to abstract values (`map`), value
//! domains with their lattice laws (`domain`, `interval`, `constant`,
//! `concrete`), environments proved sound against the concrete semantics of
//! expressions and guards (`env`), and the fixpoint iterator that walks a
//! program with unrolling, widening and narrowing (`interpreter`).
pub mod ast;
pub mod concrete;
pub mod constant;
pub mod domain;
pub mod env;
pub mod error;
pub mod interpreter;
pub mod interval;
pub mod map;
pub mod parser_state;
pub mod semantics;
pub mod symbol;
pub mod text;
pub mod typing;
