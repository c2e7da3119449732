//! Errors reported by the parsers.
use vstd::prelude::*;

verus! {

/// Why a parse failed.
#[derive(Clone, Copy, Debug, PartialEq, Eq, Structural)]
pub enum ErrorKind {
    /// The timestamp token does not follow `YYYYMMDDTHH:MM:SSZ`, or names no real instant.
    MalformedTimestamp,
    /// A record's count field, markers or continuation lines are wrong or missing.
    MalformedRecordHeader,
    /// The input goes on with something that starts neither `"MR "` nor `"MI "`.
    UnrecognizedRecordPrefix,
    /// A markup escape is followed by something outside its grammar.
    MalformedAttributeEscape,
    /// Every colour pair that an attribute word can address is taken.
    ColorPairExhausted,
}

/// A failed parse: its cause, and the position (in characters from the start of
/// the input) of the record or escape that could not be read.
#[derive(Clone, Copy, Debug, PartialEq, Eq, Structural)]
pub struct ParseError {
    pub kind: ErrorKind,
    pub position: usize,
}

/// The description of each kind of failure.
pub open spec fn kind_text(k: ErrorKind) -> Seq<char> {
    match k {
        ErrorKind::MalformedTimestamp => "malformed timestamp"@,
        ErrorKind::MalformedRecordHeader => "malformed record header"@,
        ErrorKind::UnrecognizedRecordPrefix => "unrecognized record prefix"@,
        ErrorKind::MalformedAttributeEscape => "malformed attribute escape"@,
        ErrorKind::ColorPairExhausted => "no colour pair left"@,
    }
}

impl ErrorKind {
    /// A short description of the failure.
    pub fn message(&self) -> (r: String)
        ensures
            r@ == kind_text(*self),
    {
        let what = match self {
            ErrorKind::MalformedTimestamp => "malformed timestamp",
            ErrorKind::MalformedRecordHeader => "malformed record header",
            ErrorKind::UnrecognizedRecordPrefix => "unrecognized record prefix",
            ErrorKind::MalformedAttributeEscape => "malformed attribute escape",
            ErrorKind::ColorPairExhausted => "no colour pair left",
        };
        String::from_str(what)
    }
}

impl ParseError {
    /// A short description of the failure.
    pub fn message(&self) -> (r: String)
        ensures
            r@ == kind_text(self.kind),
    {
        self.kind.message()
    }
}

} // verus!
