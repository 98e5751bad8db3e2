//! Errors of the codec and of the cursors it reads with.
use vstd::prelude::*;

verus! {

#[derive(Debug, Clone, Copy, PartialEq, Eq, Structural)]
pub enum CodecError {
    /// A read or an index went past the end of a buffer or of the entry list.
    OutOfBounds,
    /// A file yielded fewer bytes than were asked for.
    ShortRead,
    /// Bytes that should hold a string are not valid UTF-8.
    InvalidEncoding,
    /// No chapter has the name that was looked up.
    NotFound,
    /// A chapter name takes more than 255 bytes in UTF-8.
    NameTooLong,
    /// The file reader was used after it was closed.
    ReaderClosed,
}

} // verus!
