//! Why a batch of JSON edits was refused.

use vstd::prelude::*;

verus! {

/// The refusal of a batch of JSON edits.
#[derive(Debug)]
pub enum JsonError {
    /// The value at `path` does not have the hash that its anchor expects.
    HashMismatch { path: String, expected: String, actual: String },
    /// Anything else: an anchor or a path that does not parse, a path that
    /// leads nowhere, an index out of range.
    Other(String),
}

/// The refusal of a batch of JSON edits, as plain values.
pub enum JsonFault {
    HashMismatch { path: Seq<char>, expected: Seq<char>, actual: Seq<char> },
    Other(Seq<char>),
}

/// The text of a refusal.
pub open spec fn fault_text(f: JsonFault) -> Seq<char> {
    match f {
        JsonFault::HashMismatch { path, expected, actual } => "Hash mismatch at "@ + path
            + ": expected "@ + expected + ", got "@ + actual,
        JsonFault::Other(m) => m,
    }
}

impl JsonError {
    /// The plain values of the refusal.
    pub open spec fn view(&self) -> JsonFault {
        match self {
            JsonError::HashMismatch { path, expected, actual } => JsonFault::HashMismatch {
                path: path@,
                expected: expected@,
                actual: actual@,
            },
            JsonError::Other(m) => JsonFault::Other(m@),
        }
    }

    /// The text of the refusal.
    pub fn to_string(&self) -> (r: String)
        ensures
            r@ == fault_text(self@),
    {
        match self {
            JsonError::HashMismatch { path, expected, actual } => {
                let mut r = String::from_str("Hash mismatch at ");
                r.append(path.as_str());
                r.append(": expected ");
                r.append(expected.as_str());
                r.append(", got ");
                r.append(actual.as_str());
                r
            },
            JsonError::Other(m) => m.clone(),
        }
    }
}

} // verus!
