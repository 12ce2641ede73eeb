//! Text as bytes and text compared: what is asked of the standard library,
//! and what is built on it.

use crate::frame::{Frame, FrameView};
use vstd::prelude::*;
use vstd::utf8::{encode_utf8, encode_utf8_decode_utf8, valid_utf8};

verus! {

/// Calls `core::str::from_utf8`. The standard library documents that the
/// call succeeds exactly on well-formed UTF-8, and that the text it hands
/// back is the very bytes it was given.
#[verifier::external_body]
pub(crate) fn from_utf8(bytes: &[u8]) -> (r: Option<&str>)
    ensures
        r is Some <==> valid_utf8(bytes@),
        r matches Some(text) ==> encode_utf8(text@) == bytes@,
{
    core::str::from_utf8(bytes).ok()
}

/// What `str::to_lowercase` makes of a text: its lowercase by the rules of
/// Unicode, which are a matter of tables.
pub uninterp spec fn lowercase(text: Seq<char>) -> Seq<char>;

/// What `str::to_uppercase` makes of a text: its uppercase by the rules of
/// Unicode, which are a matter of tables.
pub uninterp spec fn uppercase(text: Seq<char>) -> Seq<char>;

/// Calls `str::to_lowercase`, whose result depends on the text alone.
#[verifier::external_body]
pub(crate) fn to_lowercase(text: &str) -> (r: String)
    ensures
        r@ == lowercase(text@),
{
    text.to_lowercase()
}

/// Calls `str::to_uppercase`, whose result depends on the text alone.
#[verifier::external_body]
pub(crate) fn to_uppercase(text: &str) -> (r: String)
    ensures
        r@ == uppercase(text@),
{
    text.to_uppercase()
}

/// What the `Debug` form that the standard library derives makes of a
/// frame: the name of its kind and, in brackets, what it holds, texts and
/// bytes and items in the `Debug` forms of their own.
pub uninterp spec fn debug_form(frame: FrameView) -> Seq<char>;

/// Formats `frame` with its derived `Debug` form through `format!`. The text
/// depends on what the frame holds alone.
#[verifier::external_body]
pub(crate) fn debug_text(frame: &Frame) -> (r: String)
    ensures
        r@ == debug_form(frame@),
{
    format!("{:?}", frame)
}

/// The texts of `items`, in order.
pub open spec fn texts(items: Seq<String>) -> Seq<Seq<char>> {
    Seq::new(items.len(), |i: int| items[i]@)
}

/// Whether two texts are the same.
pub fn text_eq(a: &str, b: &str) -> (r: bool)
    ensures
        r == (a@ == b@),
{
    let x = a.as_bytes();
    let y = b.as_bytes();
    proof {
        encode_utf8_decode_utf8(a@);
        encode_utf8_decode_utf8(b@);
    }
    if x.len() != y.len() {
        return false;
    }
    let mut i: usize = 0;
    while i < x.len()
        invariant
            i <= x.len(),
            x.len() == y.len(),
            x@ == encode_utf8(a@),
            y@ == encode_utf8(b@),
            forall|j: int| 0 <= j < i ==> x@[j] == y@[j],
        decreases x.len() - i,
    {
        if x[i] != y[i] {
            return false;
        }
        i += 1;
    }
    assert(x@ =~= y@);
    true
}

} // verus!
