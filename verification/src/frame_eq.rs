//! A frame compared with a text.

use crate::frame::Frame;
use crate::text::text_eq;
use vstd::prelude::*;
use vstd::std_specs::cmp::PartialEqSpecImpl;
use vstd::utf8::encode_utf8;

verus! {

/// Whether two runs of bytes are the same.
fn bytes_eq(a: &[u8], b: &[u8]) -> (r: bool)
    ensures
        r == (a@ == b@),
{
    if a.len() != b.len() {
        return false;
    }
    let mut i: usize = 0;
    while i < a.len()
        invariant
            i <= a.len(),
            a.len() == b.len(),
            forall|j: int| 0 <= j < i ==> a@[j] == b@[j],
        decreases a.len() - i,
    {
        if a[i] != b[i] {
            return false;
        }
        i += 1;
    }
    assert(a@ =~= b@);
    true
}

impl<'a> PartialEq<&'a str> for Frame {
    /// Whether this frame is a simple string of the text `other`, or a bulk
    /// string of its bytes.
    fn eq(&self, other: &&'a str) -> (r: bool) {
        match self {
            Frame::Simple(text) => text_eq(text.as_str(), *other),
            Frame::Bulk(data) => bytes_eq(data.as_slice(), other.as_bytes()),
            _ => false,
        }
    }
}

impl<'a> PartialEqSpecImpl<&'a str> for Frame {
    open spec fn obeys_eq_spec() -> bool {
        true
    }

    open spec fn eq_spec(&self, other: &&'a str) -> bool {
        match self {
            Frame::Simple(text) => text@ == other@,
            Frame::Bulk(data) => data@ == encode_utf8(other@),
            _ => false,
        }
    }
}

} // verus!
