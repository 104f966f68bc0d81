//! Turning the parser's failures into the front end's errors.
use vstd::prelude::*;

use crate::ast_factory::ASTFactory;
use crate::error::{CustomParsingError, ErrorKind, ErrorLocation, LocalError};
use crate::text::text_of;

verus! {

/// A failure of the parser, with the tokens already rendered as text: a token by
/// its text (or its debug text, for an extra token), the expected tokens as their
/// pretty-printed list.
pub enum ParseFailure {
    InvalidToken { location: usize },
    UnrecognizedToken { start: usize, token: String, expected: String },
    ExtraToken { start: usize, token: String },
    User { error: CustomParsingError },
    UnrecognizedEof { location: usize, expected: String },
}

/// A syntax error at the point `(l, c)` with the message `p`.
pub fn make_error(lc: (usize, usize), p: &str) -> (res: LocalError)
    ensures
        res.kind matches ErrorKind::SyntaxParsing(m) && m@ == p@,
        res.location == ErrorLocation::Single(lc.0, lc.1),
{
    let (l, c) = lc;
    LocalError { kind: ErrorKind::SyntaxParsing(text_of(p)), location: ErrorLocation::Single(l, c) }
}

/// The byte offset a failure is reported at, if it has one.
pub open spec fn failure_offset(err: ParseFailure) -> Option<usize> {
    match err {
        ParseFailure::InvalidToken { location } => Some(location),
        ParseFailure::UnrecognizedToken { start, .. } => Some(start),
        ParseFailure::ExtraToken { start, .. } => Some(start),
        ParseFailure::User { .. } => None,
        ParseFailure::UnrecognizedEof { location, .. } => Some(location),
    }
}

/// The message of a failure.
pub open spec fn failure_text(err: ParseFailure) -> Seq<char> {
    match err {
        ParseFailure::InvalidToken { .. } => "Invalid token"@,
        ParseFailure::UnrecognizedToken { token, expected, .. } => "Unrecognized token: '"@ + token@
            + "', expected one of "@ + expected@,
        ParseFailure::ExtraToken { token, .. } => "Extra token: '"@ + token@ + "'"@,
        ParseFailure::User { error } => error.msg@,
        ParseFailure::UnrecognizedEof { expected, .. } => "Unexpected EOF, expected one of: "@ + expected@,
    }
}

/// Converts a failure of the parser into a syntax error, located at the line and
/// column of the failure's offset (or at the start of a check's own location).
pub fn parse_error_to_error(err: ParseFailure, ast_factory: &ASTFactory) -> (res: LocalError)
    requires
        ast_factory.wf(),
        failure_offset(err) matches Some(u) ==> u <= ast_factory.last_offset(),
    ensures
        res.kind matches ErrorKind::SyntaxParsing(m) && m@ == failure_text(err),
        res.location == match failure_offset(err) {
            Some(u) => ErrorLocation::Single(
                ast_factory.spec_line_col(u).0,
                ast_factory.spec_line_col(u).1,
            ),
            None => ErrorLocation::Single(
                err->User_error.loc.start_ln_and_col.0,
                err->User_error.loc.start_ln_and_col.1,
            ),
        },
{
    match err {
        ParseFailure::InvalidToken { location } => make_error(
            ast_factory.line_and_column(location),
            "Invalid token",
        ),
        ParseFailure::UnrecognizedToken { start, token, expected } => {
            let mut msg = text_of("Unrecognized token: '");
            msg.append(token.as_str());
            msg.append("', expected one of ");
            msg.append(expected.as_str());
            make_error(ast_factory.line_and_column(start), msg.as_str())
        },
        ParseFailure::ExtraToken { start, token } => {
            let mut msg = text_of("Extra token: '");
            msg.append(token.as_str());
            msg.append("'");
            make_error(ast_factory.line_and_column(start), msg.as_str())
        },
        ParseFailure::User { error } => make_error(error.loc.start_ln_and_col, error.msg.as_str()),
        ParseFailure::UnrecognizedEof { location, expected } => {
            let mut msg = text_of("Unexpected EOF, expected one of: ");
            msg.append(expected.as_str());
            make_error(ast_factory.line_and_column(location), msg.as_str())
        },
    }
}

} // verus!
