//! Errors made from the text of what they say.

use crate::frame::FrameError;
use crate::parse::ParseError;
use vstd::prelude::*;
use vstd::std_specs::convert::FromSpecImpl;

verus! {

impl From<String> for FrameError {
    /// The error that says `src`.
    fn from(src: String) -> (r: FrameError) {
        FrameError::Other(src)
    }
}

impl FromSpecImpl<String> for FrameError {
    open spec fn obeys_from_spec() -> bool {
        true
    }

    open spec fn from_spec(src: String) -> FrameError {
        FrameError::Other(src)
    }
}

impl From<String> for ParseError {
    /// The error that says `src`.
    fn from(src: String) -> (r: ParseError) {
        ParseError::Other(src)
    }
}

impl FromSpecImpl<String> for ParseError {
    open spec fn obeys_from_spec() -> bool {
        true
    }

    open spec fn from_spec(src: String) -> ParseError {
        ParseError::Other(src)
    }
}

} // verus!
