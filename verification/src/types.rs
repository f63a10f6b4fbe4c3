//! Source coordinates and the error type shared by every stage.
use vstd::prelude::*;
use vstd::std_specs::ops::AddSpecImpl;

verus! {

/// Why a document could not be turned into a tree.
#[derive(Debug, Clone, Copy, PartialEq, Eq, Structural)]
pub enum ParseError {
    /// An object brace is unmatched, or the document does not start with `{`.
    MissingObjectBrace,
    /// An array bracket is unmatched.
    MissingArrayBrace,
    /// A number or a `true` / `false` / `null` literal is malformed.
    InvalidType,
    /// The document could not be read at all.
    FileNotFound,
    /// A value had to be stored while no key had been seen yet.
    Error,
}

/// What every stage returns: a value, or the first error that was met.
pub type ParseResult<T> = Result<T, ParseError>;

impl ParseError {
    /// The text of the message that describes this error.
    pub open spec fn message_text(self) -> Seq<char> {
        match self {
            ParseError::InvalidType => "Found invalid type"@,
            ParseError::MissingArrayBrace => "Missing array brace"@,
            ParseError::MissingObjectBrace => "Missing object brace"@,
            ParseError::FileNotFound => "File not found"@,
            ParseError::Error => "Could not parse json"@,
        }
    }

    /// A human-readable description of the error.
    pub fn message(&self) -> (text: String)
        ensures
            text@ == self.message_text(),
    {
        match self {
            ParseError::InvalidType => "Found invalid type".to_owned(),
            ParseError::MissingArrayBrace => "Missing array brace".to_owned(),
            ParseError::MissingObjectBrace => "Missing object brace".to_owned(),
            ParseError::FileNotFound => "File not found".to_owned(),
            ParseError::Error => "Could not parse json".to_owned(),
        }
    }
}

/// A single source coordinate.
///
/// `idx` counts characters from the start of the document and is the only
/// field that can be used to slice the text; `line` and `char` are for
/// display.
#[derive(Debug, Copy, Clone, PartialEq, Eq, Structural)]
pub struct Position {
    pub line: usize,
    pub char: usize,
    pub idx: usize,
}

/// A half-open span of the source text.
#[derive(Debug, Copy, Clone, PartialEq, Eq, Structural)]
pub struct Range {
    pub start: Position,
    pub end: Position,
}

impl Range {
    /// The span from `start` up to `end`.
    pub fn new(start: Position, end: Position) -> (range: Range)
        ensures
            range == (Range { start, end }),
    {
        Range { start, end }
    }
}

impl Default for Position {
    /// The origin: line 0, column 0, offset 0.
    fn default() -> (pos: Position)
        ensures
            pos == Position::origin(),
    {
        Position { line: 0, char: 0, idx: 0 }
    }
}

impl Position {
    /// The first coordinate of every document.
    pub open spec fn origin() -> Position {
        Position { line: 0, char: 0, idx: 0 }
    }

    /// The coordinate reached from `self` by moving `other` lines, columns
    /// and characters further.
    pub open spec fn offset_by(self, other: Position) -> Position {
        Position {
            line: (self.line + other.line) as usize,
            char: (self.char + other.char) as usize,
            idx: (self.idx + other.idx) as usize,
        }
    }

    /// Whether every field of `self.offset_by(other)` fits in a `usize`.
    pub open spec fn can_offset_by(self, other: Position) -> bool {
        &&& self.line + other.line <= usize::MAX
        &&& self.char + other.char <= usize::MAX
        &&& self.idx + other.idx <= usize::MAX
    }

    /// The coordinate with that line, column and offset.
    pub fn new(line: usize, char: usize, idx: usize) -> (pos: Position)
        ensures
            pos == (Position { line, char, idx }),
    {
        Position { line, char, idx }
    }
}

impl core::ops::Add for Position {
    type Output = Position;

    /// Field-wise sum of two coordinates.
    fn add(self, other: Position) -> (sum: Position) {
        Position {
            line: self.line + other.line,
            char: self.char + other.char,
            idx: self.idx + other.idx,
        }
    }
}

impl AddSpecImpl for Position {
    open spec fn obeys_add_spec() -> bool {
        true
    }

    open spec fn add_req(self, other: Position) -> bool {
        self.can_offset_by(other)
    }

    open spec fn add_spec(self, other: Position) -> Position {
        self.offset_by(other)
    }
}

} // verus!
