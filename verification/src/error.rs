//! Source locations and the errors of the front end.
use vstd::prelude::*;

use crate::text::{decimal, usize_to_text};

verus! {

/// The starting and ending position (line, column) of a token in a file.
#[derive(Clone, Copy, Debug, PartialEq, Eq)]
pub struct Info {
    pub start_ln_and_col: (usize, usize),
    pub end_ln_and_col: (usize, usize),
}

impl Default for Info {
    fn default() -> (res: Self)
        ensures
            res.start_ln_and_col == (0usize, 0usize),
            res.end_ln_and_col == (0usize, 0usize),
    {
        Info { start_ln_and_col: (0, 0), end_ln_and_col: (0, 0) }
    }
}

/// The text of `info`: `"l1:c1 - l2:c2"`.
pub open spec fn info_text(info: Info) -> Seq<char> {
    decimal(info.start_ln_and_col.0 as nat) + ":"@ + decimal(info.start_ln_and_col.1 as nat)
        + " - "@ + decimal(info.end_ln_and_col.0 as nat) + ":"@ + decimal(
        info.end_ln_and_col.1 as nat,
    )
}

impl Info {
    /// A range of characters from the start of `start` to the end of `end`.
    pub fn new_range(start: &Self, end: &Self) -> (res: Self)
        ensures
            res.start_ln_and_col == start.start_ln_and_col,
            res.end_ln_and_col == end.end_ln_and_col,
    {
        Self { start_ln_and_col: start.start_ln_and_col, end_ln_and_col: end.end_ln_and_col }
    }

    /// Renders the location as `"l1:c1 - l2:c2"` (what `Display` prints).
    pub fn to_text(&self) -> (res: String)
        ensures
            res@ == info_text(*self),
    {
        let (l1, c1) = self.start_ln_and_col;
        let (l2, c2) = self.end_ln_and_col;
        let mut s = usize_to_text(l1);
        s.append(":");
        s.append(usize_to_text(c1).as_str());
        s.append(" - ");
        s.append(usize_to_text(l2).as_str());
        s.append(":");
        s.append(usize_to_text(c2).as_str());
        s
    }
}

/// A parsing error raised by the front end's own sanity checks.
pub struct CustomParsingError {
    pub loc: Info,
    pub msg: String,
}

/// Something with a source location.
pub trait HasInfo {
    fn info(&self) -> Info;
}

/// The kind of an error, with its message.
#[derive(Debug, Clone, PartialEq, Eq)]
pub enum ErrorKind {
    SyntaxParsing(String),
    IO(String),
    TypeError(String),
}

/// Where an error happened: a (line, column) point or a range.
#[derive(Debug, Clone, PartialEq, Eq)]
pub enum ErrorLocation {
    Single(usize, usize),
    Double(Info),
}

impl ErrorLocation {
    /// The location of the range `info` (`ErrorLocation::from(info)`).
    pub fn from_info(info: Info) -> (res: Self)
        ensures
            res == ErrorLocation::Double(info),
    {
        ErrorLocation::Double(info)
    }
}

/// An error that occurs in a single file.
#[derive(Debug)]
pub struct LocalError {
    pub kind: ErrorKind,
    pub location: ErrorLocation,
}

/// An error in the front end, with the file it occurred in.
pub struct Error {
    pub error: LocalError,
    pub filename: String,
}

/// The (line, column) an error is reported at: the point, or the start of the range.
pub open spec fn reported_point(loc: ErrorLocation) -> (usize, usize) {
    match loc {
        ErrorLocation::Single(l, c) => (l, c),
        ErrorLocation::Double(info) => info.start_ln_and_col,
    }
}

/// The text of an error kind: a prefix naming the kind, then the message.
pub open spec fn kind_text(kind: ErrorKind) -> Seq<char> {
    match kind {
        ErrorKind::SyntaxParsing(e) => "Parsing Error: "@ + e@,
        ErrorKind::IO(e) => "IO Error: "@ + e@,
        ErrorKind::TypeError(e) => "Type Error: "@ + e@,
    }
}

/// The text an error is reported with.
pub open spec fn error_text(e: Error) -> Seq<char> {
    let (l, c) = reported_point(e.error.location);
    "At "@ + e.filename@ + ":"@ + decimal(l as nat) + ":"@ + decimal(c as nat) + ", \n  "@
        + kind_text(e.error.kind)
}

impl Error {
    /// Renders the error as the front end reports it (what `Display` prints).
    pub fn message(&self) -> (res: String)
        ensures
            res@ == error_text(*self),
    {
        let (l, c) = match &self.error.location {
            ErrorLocation::Single(l, c) => (*l, *c),
            ErrorLocation::Double(info) => info.start_ln_and_col,
        };
        let mut s = String::new();
        s.append("At ");
        s.append(self.filename.as_str());
        s.append(":");
        s.append(usize_to_text(l).as_str());
        s.append(":");
        s.append(usize_to_text(c).as_str());
        s.append(", \n  ");
        match &self.error.kind {
            ErrorKind::SyntaxParsing(e) => {
                s.append("Parsing Error: ");
                s.append(e.as_str());
            },
            ErrorKind::IO(e) => {
                s.append("IO Error: ");
                s.append(e.as_str());
            },
            ErrorKind::TypeError(e) => {
                s.append("Type Error: ");
                s.append(e.as_str());
            },
        }
        s
    }
}

/// Constructs a type error at `info` with the message `msg`.
pub fn type_error(info: Info, msg: &str) -> (res: LocalError)
    ensures
        res.kind matches ErrorKind::TypeError(m) && m@ == msg@,
        res.location == ErrorLocation::Double(info),
{
    let mut m = String::new();
    m.append(msg);
    LocalError { kind: ErrorKind::TypeError(m), location: ErrorLocation::from_info(info) }
}

} // verus!
