//! What parsing and querying can fail with.

use vstd::prelude::*;
use crate::text::{decimal_text, push_decimal, push_text, to_text};

verus! {

/// What went wrong at a place in a script.
#[derive(Debug, Clone)]
pub enum ErrorCodes {
    UnexpectedToken(String),
    InvalidIdentifier(String),
    UnknownError,
    InvalidLimitValue(String),
}

/// The value of an error code.
pub enum ErrorCodesView {
    UnexpectedToken(Seq<char>),
    InvalidIdentifier(Seq<char>),
    UnknownError,
    InvalidLimitValue(Seq<char>),
}

impl View for ErrorCodes {
    type V = ErrorCodesView;

    open spec fn view(&self) -> ErrorCodesView {
        match self {
            ErrorCodes::UnexpectedToken(t) => ErrorCodesView::UnexpectedToken(t@),
            ErrorCodes::InvalidIdentifier(t) => ErrorCodesView::InvalidIdentifier(t@),
            ErrorCodes::UnknownError => ErrorCodesView::UnknownError,
            ErrorCodes::InvalidLimitValue(t) => ErrorCodesView::InvalidLimitValue(t@),
        }
    }
}

/// A script that could not be parsed. Lines and columns count from 1; an
/// error inside an expression has no place and carries 0 for both.
#[derive(Debug, Clone)]
pub enum ParseError {
    Syntax { line: usize, column: usize, message: ErrorCodes },
    Eof,
}

/// The value of a parse error.
pub enum ParseErrorView {
    Syntax { line: int, column: int, message: ErrorCodesView },
    Eof,
}

impl View for ParseError {
    type V = ParseErrorView;

    open spec fn view(&self) -> ParseErrorView {
        match self {
            ParseError::Syntax { line, column, message } => ParseErrorView::Syntax {
                line: *line as int,
                column: *column as int,
                message: message@,
            },
            ParseError::Eof => ParseErrorView::Eof,
        }
    }
}

/// A query that could not be run against a document.
#[derive(Debug, Clone)]
pub enum QueryError {
    ExpectedArray { path: String, found: String },
    MissingField { field: String },
    TypeError { message: String },
}

/// The value of a query error.
pub enum QueryErrorView {
    ExpectedArray { path: Seq<char>, found: Seq<char> },
    MissingField { field: Seq<char> },
    TypeError { message: Seq<char> },
}

impl View for QueryError {
    type V = QueryErrorView;

    open spec fn view(&self) -> QueryErrorView {
        match self {
            QueryError::ExpectedArray { path, found } => QueryErrorView::ExpectedArray {
                path: path@,
                found: found@,
            },
            QueryError::MissingField { field } => QueryErrorView::MissingField { field: field@ },
            QueryError::TypeError { message } => QueryErrorView::TypeError { message: message@ },
        }
    }
}

/// What an error code says.
pub open spec fn code_text(code: ErrorCodesView) -> Seq<char> {
    match code {
        ErrorCodesView::UnexpectedToken(token) => "unexpected token: "@ + token,
        ErrorCodesView::InvalidIdentifier(name) => "invalid identifier: "@ + name,
        ErrorCodesView::UnknownError => "unknown error"@,
        ErrorCodesView::InvalidLimitValue(value) => "invalid limit value: "@ + value,
    }
}

/// What a parse error says: its place and its code.
pub open spec fn parse_error_text(error: ParseErrorView) -> Seq<char> {
    match error {
        ParseErrorView::Syntax { line, column, message } => "syntax error at line "@
            + decimal_text(line as nat) + ", column "@ + decimal_text(column as nat) + ": "@
            + code_text(message),
        ParseErrorView::Eof => "unexpected end of input"@,
    }
}

/// What a query error says.
pub open spec fn query_error_text(error: QueryErrorView) -> Seq<char> {
    match error {
        QueryErrorView::ExpectedArray { path, found } => "expected array at path `"@ + path
            + "`, found "@ + found,
        QueryErrorView::MissingField { field } => "field `"@ + field + "` not found in object"@,
        QueryErrorView::TypeError { message } => "type error: "@ + message,
    }
}

impl ErrorCodes {
    /// Appends the message of this code.
    fn write(&self, out: &mut Vec<char>)
        ensures
            final(out)@ == old(out)@ + code_text(self@),
    {
        let ghost before = out@;
        match self {
            ErrorCodes::UnexpectedToken(token) => {
                push_text(out, "unexpected token: ");
                push_text(out, token.as_str());
                assert(out@ =~= before + ("unexpected token: "@ + token@));
            },
            ErrorCodes::InvalidIdentifier(name) => {
                push_text(out, "invalid identifier: ");
                push_text(out, name.as_str());
                assert(out@ =~= before + ("invalid identifier: "@ + name@));
            },
            ErrorCodes::UnknownError => {
                push_text(out, "unknown error");
            },
            ErrorCodes::InvalidLimitValue(value) => {
                push_text(out, "invalid limit value: ");
                push_text(out, value.as_str());
                assert(out@ =~= before + ("invalid limit value: "@ + value@));
            },
        }
    }

    /// The message of this code.
    pub fn to_string(&self) -> (r: String)
        ensures
            r@ == code_text(self@),
    {
        let mut out: Vec<char> = Vec::new();
        self.write(&mut out);
        assert(out@ =~= code_text(self@));
        to_text(&out)
    }
}

impl ParseError {
    /// The message of this error.
    pub fn to_string(&self) -> (r: String)
        ensures
            r@ == parse_error_text(self@),
    {
        let mut out: Vec<char> = Vec::new();
        match self {
            ParseError::Syntax { line, column, message } => {
                push_text(&mut out, "syntax error at line ");
                push_decimal(&mut out, *line);
                push_text(&mut out, ", column ");
                push_decimal(&mut out, *column);
                push_text(&mut out, ": ");
                message.write(&mut out);
                assert(out@ =~= parse_error_text(self@));
            },
            ParseError::Eof => {
                push_text(&mut out, "unexpected end of input");
                assert(out@ =~= parse_error_text(self@));
            },
        }
        to_text(&out)
    }
}

impl QueryError {
    /// The message of this error.
    pub fn to_string(&self) -> (r: String)
        ensures
            r@ == query_error_text(self@),
    {
        let mut out: Vec<char> = Vec::new();
        match self {
            QueryError::ExpectedArray { path, found } => {
                push_text(&mut out, "expected array at path `");
                push_text(&mut out, path.as_str());
                push_text(&mut out, "`, found ");
                push_text(&mut out, found.as_str());
                assert(out@ =~= query_error_text(self@));
            },
            QueryError::MissingField { field } => {
                push_text(&mut out, "field `");
                push_text(&mut out, field.as_str());
                push_text(&mut out, "` not found in object");
                assert(out@ =~= query_error_text(self@));
            },
            QueryError::TypeError { message } => {
                push_text(&mut out, "type error: ");
                push_text(&mut out, message.as_str());
                assert(out@ =~= query_error_text(self@));
            },
        }
        to_text(&out)
    }
}

} // verus!
