//! Owned AST, parser and validation for the template language.

pub mod diagnostic;
pub mod span;
pub mod expr;
pub mod lexer;
pub mod pratt;
pub mod args;
pub mod ast;
pub mod scan;
pub mod grammar;
pub mod parser;
pub mod validate;
pub mod outline;
pub mod copy;

pub use ast::{Argument, ArgumentValue, Block, Node, Parameter, Section, Template};
pub use diagnostic::Diagnostic;
pub use expr::{BinaryOp, Expr, Literal, UnaryOp};
pub use outline::{built_in_block_names, BUILT_IN_SECTIONS};
pub use parser::{analyze, parse, Analysis};
pub use span::Span;
pub use validate::validate;
