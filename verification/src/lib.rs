//! A small query language over JSON documents: a script declares an HTTP
//! request and a query (source path, filter, projection, limit) that is run
//! against the body the request returned.
//!
//! Every function here is stated over sequences of characters and plain
//! values, and proved against that statement. Two answers are taken as they
//! come: that of the regex crate on whether a pattern matches, and that of
//! the standard library on the upper case of a text beyond ASCII.

pub mod ast;
pub mod bignum;
pub mod cache;
pub mod decimal;
pub mod editor;
pub mod errors;
pub mod expr;
pub mod json;
pub mod laws;
pub mod number;
pub mod parser;
pub mod pattern;
pub mod query;
pub mod resolve;
pub mod runtime;
pub mod text;

pub use crate::ast::{
    BinaryOp, CacheDuration, Expression, FieldPath, FromClause, FromType, Header, HttpMethods,
    Literal, Program, QueryBlock, RequestBlock, ResponseBlock, SelectClause, SelectField,
    UsingBlock, VarDeclaration,
};
pub use crate::cache::{Cache, CacheEntry};
pub use crate::errors::{ErrorCodes, ParseError, QueryError};
pub use crate::expr::{find_top_level_logical, parse_expression};
pub use crate::json::{Json, JsonNumber};
pub use crate::parser::{parse_from_clause, parse_program};
pub use crate::query::execute_query;
pub use crate::resolve::{resolve_expr, unroll_handlers};
pub use crate::text::{is_identifier_like, is_toplevel_keyword, trim_quotes};
