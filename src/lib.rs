//! Front-end of a compiler for the Io programming language: a verified
//! recursive-descent parser that turns source text into message chains, and
//! the operator restructurer that nests infix operator sends by precedence.
//!
//! The syntax tree owns its text: identifiers, quotes and decimal literals
//! hold copies of what the source says (quotes with their escapes decoded),
//! so a tree does not borrow the buffer it was parsed from.

pub mod ast;
pub mod error;
pub mod number;
pub mod operator;
pub mod parser;
pub mod quote;
pub mod restructure;
pub mod shift;
pub mod symbol;
pub mod text;

pub use ast::{Argument, Message, MessageChain, MessageV};
pub use error::{ErrorKind, ParseError};
pub use number::{Decimal, Number};
pub use operator::{Operator, OperatorTable};
pub use parser::{parse, program};
pub use quote::Quote;
pub use symbol::{Identifier, Symbol, SymbolV};
