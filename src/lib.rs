//! An interpreter for a small stack-oriented language whose programs are
//! nested, parenthesised groups of tokens.
//!
//! The parser (`lexer`) is proved equal to a recursive specification of the
//! grammar over the source characters, and the tree-walking machine (`run`)
//! is proved equal to a big-step semantics over a mathematical model of the
//! stack, the variables and the macro table. `render` prints token trees
//! back as source text; `round_trip` proves that what parses prints as text
//! that parses to the same trees, and `laws` states the machine's rules for
//! arithmetic, conditionals, loops, names and macros.

pub mod stack;
pub mod error;
pub mod text;
pub mod lexer;
pub mod machine;
pub mod run;
pub mod flags;
pub mod laws;
pub mod render;
pub mod round_trip;
