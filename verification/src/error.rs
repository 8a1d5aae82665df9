//! Failures of the decoders.

use vstd::prelude::*;

verus! {

/// Why a rule did not match.
#[derive(Clone, Copy, Debug, PartialEq, Eq, Structural)]
pub enum ErrorKind {
    /// A field was found, but not under the name that was asked for.
    InvalidTagName,
    /// An index accessor holds neither a number nor a name.
    InvalidScriptProperty,
    /// A literal has the right shape but no value: a number out of range, or
    /// a string that is not UTF-8.
    InvalidScriptValue,
    /// Bytes that are read as text are not UTF-8.
    Utf8Error,
    /// A comment is opened and the input ends before it is closed.
    UnterminatedComment,
    /// The bytes at this place are not what the rule asks for.
    Mismatch,
}

/// A failure: its kind, and the place as the number of bytes that were left
/// unread, counted from the end of the input.
#[derive(Clone, Copy, Debug, PartialEq, Eq, Structural)]
pub struct Error {
    pub kind: ErrorKind,
    pub remaining: usize,
}

impl Error {
    /// The offset of the failure in an input of `len` bytes.
    pub open spec fn spec_offset(self, len: usize) -> usize {
        if self.remaining <= len {
            (len - self.remaining) as usize
        } else {
            0
        }
    }

    /// The offset of the failure in an input of `len` bytes: the number of
    /// bytes before the place where the rule gave up.
    #[verifier::when_used_as_spec(spec_offset)]
    pub fn offset(self, len: usize) -> (r: usize)
        ensures
            r == self.spec_offset(len),
            r <= len,
    {
        if self.remaining <= len {
            len - self.remaining
        } else {
            0
        }
    }
}

} // verus!
