//! A small single-process database: a stack-based query language is cut into
//! tokens, compiled into a flat program whose loops are resolved to jumps, and run
//! by a virtual machine against tables of records.

pub mod database;
pub mod intrinsics;
pub mod laws;
pub mod lexer;
pub mod literal;
pub mod query;
pub mod text;
pub mod value;
pub mod vm;

pub use database::Database;
pub use intrinsics::{filter, match_predicate, Predicate, Record, Records};
pub use lexer::{match_token_kind, tokenize, Token, TokenKind};
pub use query::{compile, parse, Operation, Program};
pub use value::{RecordId, Value};
pub use vm::execute_program;
