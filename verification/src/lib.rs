//! A small scripting-language front end: a lexer that turns source text into
//! spanned tokens, a recursive-descent parser that builds an abstract syntax
//! tree of statements and expressions, and a tree-walking evaluator that
//! executes that tree against a stack of lexical scopes.
//!
//! Each stage carries a mathematical model and is proved equal to it: the
//! lexer to a character-level scanning function, the parser to a recursive
//! reading of the grammar, the environment to a stack of maps, and the
//! evaluator to a recursive semantics over the syntax tree.

pub mod ast;
pub mod environment;
pub mod interpreter;
pub mod lexer;
pub mod parser;
pub mod token;
pub mod value;
