//! Frames and errors as text for people to read.

use crate::decimal::{decimal_string, decimal_text};
use crate::frame::{frames_view, lemma_array_view, Frame, FrameError, FrameView};
use crate::parse::ParseError;
use crate::text::from_utf8;
use vstd::prelude::*;
use vstd::string::StringExecFns;
use vstd::utf8::{decode_utf8, encode_utf8_decode_utf8, valid_utf8};

verus! {

/// What the `Debug` form of `bytes::Bytes` makes of bytes: the bytes between
/// `b"` and `"`, those that print as they are and the others escaped.
pub uninterp spec fn bytes_debug(data: Seq<u8>) -> Seq<char>;

/// Calls the `Debug` form of `bytes::Bytes` on a copy of `data` that
/// `Bytes::copy_from_slice` makes. The text depends on the bytes alone.
#[verifier::external_body]
fn debug_bytes(data: &[u8]) -> (r: String)
    ensures
        r@ == bytes_debug(data@),
{
    format!("{:?}", bytes::Bytes::copy_from_slice(data))
}

/// A frame as text for people to read: a text as it is, an error after
/// `error: `, a number in decimal, a bulk string as text where it is UTF-8
/// and else in the `Debug` form of its bytes, a null as `(nil)`, and of an
/// array the items after the first, each after a space.
pub open spec fn spec_display(frame: FrameView) -> Seq<char>
    decreases frame, 0nat,
{
    match frame {
        FrameView::Simple(text) => text,
        FrameView::Error(text) => "error: "@ + text,
        FrameView::Integer(v) => decimal_text(v),
        FrameView::Bulk(data) => if valid_utf8(data) {
            decode_utf8(data)
        } else {
            bytes_debug(data)
        },
        FrameView::Null => "(nil)"@,
        FrameView::Array(items) => spec_display_items(items, 1),
    }
}

/// The items of `items` from index `from` on as text, each after a space.
pub open spec fn spec_display_items(items: Seq<FrameView>, from: nat) -> Seq<char>
    decreases items, items.len() - from,
{
    if from >= items.len() {
        Seq::empty()
    } else {
        " "@ + spec_display(items[from as int]) + spec_display_items(items, from + 1)
    }
}

impl Frame {
    /// This frame as text for people to read.
    pub fn to_string(&self) -> (r: String)
        ensures
            r@ == spec_display(self@),
        decreases self,
    {
        match self {
            Frame::Simple(text) => text.clone(),
            Frame::Error(text) => {
                let mut out = "error: ".to_owned();
                out.append(text.as_str());
                out
            },
            Frame::Integer(v) => decimal_string(*v),
            Frame::Bulk(data) => match from_utf8(data.as_slice()) {
                Some(text) => {
                    proof {
                        encode_utf8_decode_utf8(text@);
                    }
                    text.to_owned()
                },
                None => debug_bytes(data.as_slice()),
            },
            Frame::Null => "(nil)".to_owned(),
            Frame::Array(items) => {
                let mut out = String::new();
                let ghost views = frames_view(items@);
                proof {
                    lemma_array_view(*items);
                }
                if items.len() <= 1 {
                    return out;
                }
                let mut i: usize = 1;
                assert(decreases_to!(*self => *items));
                while i < items.len()
                    invariant
                        1 <= i <= items.len(),
                        decreases_to!(*self => *items),
                        views == frames_view(items@),
                        out@ + spec_display_items(views, i as nat) == spec_display_items(views, 1),
                    decreases items.len() - i,
                {
                    let item = &items[i];
                    assert(decreases_to!(*items => items[i as int]));
                    let ghost before = out@;
                    out.append(" ");
                    out.append(item.to_string().as_str());
                    proof {
                        assert(views[i as int] == item@);
                        assert(out@ + spec_display_items(views, (i + 1) as nat) =~= before
                            + spec_display_items(views, i as nat));
                    }
                    i += 1;
                }
                assert(out@ =~= out@ + spec_display_items(views, i as nat));
                out
            },
        }
    }

    /// The text of the error for this frame where another was expected.
    pub fn to_error(&self) -> (r: String)
        ensures
            r@ == "unexpected frame: "@ + spec_display(self@),
    {
        let mut out = "unexpected frame: ".to_owned();
        out.append(self.to_string().as_str());
        out
    }
}

impl FrameError {
    /// What this error says.
    pub open spec fn spec_message(&self) -> Seq<char> {
        match self {
            FrameError::Incomplete => "stream ended early"@,
            FrameError::Other(text) => text@,
        }
    }

    /// What this error says.
    pub fn to_string(&self) -> (r: String)
        ensures
            r@ == self.spec_message(),
    {
        match self {
            FrameError::Incomplete => "stream ended early".to_owned(),
            FrameError::Other(text) => text.clone(),
        }
    }
}

impl ParseError {
    /// What this error says.
    pub open spec fn spec_message(&self) -> Seq<char> {
        match self {
            ParseError::EndOfStream => "protocol error; unexpected end of stream"@,
            ParseError::Other(text) => text@,
        }
    }

    /// What this error says.
    pub fn to_string(&self) -> (r: String)
        ensures
            r@ == self.spec_message(),
    {
        match self {
            ParseError::EndOfStream => "protocol error; unexpected end of stream".to_owned(),
            ParseError::Other(text) => text.clone(),
        }
    }
}

} // verus!
