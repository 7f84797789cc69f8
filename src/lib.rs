//! Evaluation of one-line bitwise expressions over unsigned 64-bit integers.
//!
//! A query is lexed into tokens, reordered into postfix form by a
//! shunting-yard pass, and evaluated on a value stack. Literals are written
//! in hexadecimal (`0x`), decimal (`0d` or no prefix), octal (`0` and an
//! octal digit) or binary (`0b`); the operators are `&`, `|`, `^`, `<<` and
//! `>>`, with parentheses for grouping.

pub mod error;
pub mod token;
pub mod lexer;
pub mod rpn;
pub mod calc;
pub mod laws;

pub use error::BitwiseError;
pub use token::{Symbol, Token, TokenKind, Value, Tok};
pub use lexer::{Cursor, Lexer, EOL_CHAR};
pub use rpn::reverse_polish_notation;
pub use calc::{calculate, evaluate};
