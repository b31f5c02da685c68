//! A small imperative scripting language lowered to C.
//!
//! A source text is parsed into statements ([`parser`], after the grammar in
//! [`syntax`]). Each expression is first read as a flat sequence of tokens
//! and then resolved into a tree by operator precedence ([`shunting_yard`],
//! which meets the definition in [`grammar`]; the state of the conversion is
//! described in [`postfix`]). The generator turns the statements into C
//! source text ([`compiler`], which meets the definitions in [`codegen`];
//! [`frame`] holds what it needs of them). Functions may be defined anywhere
//! in a program; each is hoisted to the top level of the generated text
//! under a generated name ([`utils`]), and the names are kept by an interner
//! ([`interner`]). What holds of every expression and program is stated in
//! [`laws`], and that the rules of the grammar move forward in [`progress`].

pub mod codegen;
pub mod compiler;
pub mod frame;
pub mod grammar;
pub mod interner;
pub mod laws;
pub mod parser;
pub mod postfix;
pub mod progress;
pub mod shunting_yard;
pub mod syntax;
pub mod types;
pub mod utils;
