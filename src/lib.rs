//! Parses the text of a Dockerfile into typed instructions and renders
//! instructions back to canonical Dockerfile text.
use vstd::prelude::*;

pub mod ast;
pub mod error;
pub mod file;
pub mod instructions;
pub mod lines;
pub mod map;
pub mod parser;
pub mod quoter;
pub mod render;
pub mod roundtrip;
pub mod text;

pub use crate::ast::Instruction;
pub use crate::error::ParseError;
pub use crate::file::Dockerfile;

verus! {

/// The result of a parse.
pub type ParseResult<T> = Result<T, ParseError>;

} // verus!
