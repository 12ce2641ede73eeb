//! Frames on the wire: how a frame is written as bytes, and how the next
//! frame is taken from the bytes that a connection has buffered.

use crate::decimal::{decimal_digits, write_decimal};
use crate::frame::{
    frames_view, lemma_array_view, spec_check, spec_parse, Cursor, Frame, FrameError, FrameView,
    Outcome, CR, LF, TAG_ARRAY, TAG_BULK, TAG_ERROR, TAG_INTEGER, TAG_SIMPLE,
};
use crate::laws::law_check_then_parse;
use vstd::prelude::*;
use vstd::utf8::encode_utf8;

verus! {

/// The two bytes that end a line.
pub open spec fn line_break() -> Seq<u8> {
    seq![CR, LF]
}

/// The bytes that stand for a null on the wire: `$-1` and a line break.
pub open spec fn null_bytes() -> Seq<u8> {
    seq![TAG_BULK, 45u8, 49u8, CR, LF]
}

/// The bytes that stand for `frame` on the wire.
pub open spec fn spec_encode(frame: FrameView) -> Seq<u8>
    decreases frame, 0nat,
{
    match frame {
        FrameView::Simple(text) => seq![TAG_SIMPLE] + encode_utf8(text) + line_break(),
        FrameView::Error(text) => seq![TAG_ERROR] + encode_utf8(text) + line_break(),
        FrameView::Integer(v) => seq![TAG_INTEGER] + decimal_digits(v as nat) + line_break(),
        FrameView::Bulk(data) => seq![TAG_BULK] + decimal_digits(data.len()) + line_break() + data
            + line_break(),
        FrameView::Null => null_bytes(),
        FrameView::Array(items) => seq![TAG_ARRAY] + decimal_digits(items.len()) + line_break()
            + spec_encode_items(items, 0),
    }
}

/// The bytes that stand for the frames of `items` from index `from` on, one
/// after the other.
pub open spec fn spec_encode_items(items: Seq<FrameView>, from: nat) -> Seq<u8>
    decreases items, items.len() - from,
{
    if from >= items.len() {
        Seq::empty()
    } else {
        spec_encode(items[from as int]) + spec_encode_items(items, from + 1)
    }
}

/// Appends a line break to `dst`.
fn write_line_break(dst: &mut Vec<u8>)
    ensures
        final(dst)@ == old(dst)@ + line_break(),
{
    dst.push(CR);
    dst.push(LF);
    assert(dst@ =~= old(dst)@ + line_break());
}

/// Appends `bytes` to `dst`.
fn write_bytes(dst: &mut Vec<u8>, bytes: &[u8])
    ensures
        final(dst)@ == old(dst)@ + bytes@,
{
    let mut i: usize = 0;
    while i < bytes.len()
        invariant
            i <= bytes.len(),
            dst@ == old(dst)@ + bytes@.subrange(0, i as int),
        decreases bytes.len() - i,
    {
        dst.push(bytes[i]);
        i += 1;
        assert(dst@ =~= old(dst)@ + bytes@.subrange(0, i as int));
    }
    assert(bytes@.subrange(0, i as int) =~= bytes@);
}

/// Appends to `dst` the bytes that stand for `frame` on the wire.
pub fn write_frame(dst: &mut Vec<u8>, frame: &Frame)
    ensures
        final(dst)@ == old(dst)@ + spec_encode(frame@),
    decreases frame,
{
    match frame {
        Frame::Simple(text) => {
            dst.push(TAG_SIMPLE);
            write_bytes(dst, text.as_str().as_bytes());
            write_line_break(dst);
            assert(dst@ =~= old(dst)@ + spec_encode(frame@));
        },
        Frame::Error(text) => {
            dst.push(TAG_ERROR);
            write_bytes(dst, text.as_str().as_bytes());
            write_line_break(dst);
            assert(dst@ =~= old(dst)@ + spec_encode(frame@));
        },
        Frame::Integer(v) => {
            dst.push(TAG_INTEGER);
            write_decimal(dst, *v);
            write_line_break(dst);
            assert(dst@ =~= old(dst)@ + spec_encode(frame@));
        },
        Frame::Bulk(data) => {
            dst.push(TAG_BULK);
            write_decimal(dst, data.len() as u64);
            write_line_break(dst);
            write_bytes(dst, data.as_slice());
            write_line_break(dst);
            assert(dst@ =~= old(dst)@ + spec_encode(frame@));
        },
        Frame::Null => {
            dst.push(TAG_BULK);
            dst.push(45);
            dst.push(49);
            dst.push(CR);
            dst.push(LF);
            assert(dst@ =~= old(dst)@ + spec_encode(frame@));
        },
        Frame::Array(items) => {
            dst.push(TAG_ARRAY);
            write_decimal(dst, items.len() as u64);
            write_line_break(dst);
            let ghost head = dst@;
            let ghost views = frames_view(items@);
            proof {
                lemma_array_view(*items);
                assert(head =~= old(dst)@ + (seq![TAG_ARRAY] + decimal_digits(views.len())
                    + line_break()));
            }
            let mut i: usize = 0;
            assert(decreases_to!(*frame => *items));
            while i < items.len()
                invariant
                    i <= items.len(),
                    decreases_to!(*frame => *items),
                    views == frames_view(items@),
                    dst@ + spec_encode_items(views, i as nat) == head + spec_encode_items(
                        views,
                        0,
                    ),
                decreases items.len() - i,
            {
                let item = &items[i];
                assert(decreases_to!(*items => items[i as int]));
                let ghost before = dst@;
                write_frame(dst, item);
                proof {
                    assert(views[i as int] == item@);
                    assert(dst@ + spec_encode_items(views, (i + 1) as nat) =~= before
                        + spec_encode_items(views, i as nat));
                }
                i += 1;
            }
            assert(dst@ =~= dst@ + spec_encode_items(views, i as nat));
            assert(dst@ =~= old(dst)@ + spec_encode(frame@));
        },
    }
}

/// How many bytes a connection makes room for when it starts to read.
pub const INITIAL_BUFFER: usize = 4096;

/// Takes the next frame from the bytes `buffer` that a connection has read
/// and not used yet.
///
/// The bytes are checked first, then parsed. Where they hold a whole frame,
/// the result is the frame and the number of bytes that it took, for the
/// connection to drop from its buffer; where the buffer ends before the
/// frame does, the result is `None`, for the connection to read more; where
/// the bytes are no frame, the result is the error.
pub fn parse_frame(buffer: &[u8]) -> (r: Result<Option<(Frame, usize)>, FrameError>)
    ensures
        match spec_check(buffer@, 0) {
            Outcome::Complete(_, end) => match spec_parse(buffer@, 0) {
                Outcome::Complete(value, _) => {
                    &&& r matches Ok(Some((frame, used)))
                    &&& frame@ == value
                    &&& used == end
                    &&& 0 < used <= buffer@.len()
                },
                _ => r matches Err(FrameError::Other(_)),
            },
            Outcome::Incomplete => r matches Ok(None),
            Outcome::Protocol => r matches Err(FrameError::Other(_)),
        },
{
    let mut cursor = Cursor::new(buffer);
    proof {
        law_check_then_parse(buffer@, 0);
    }
    match Frame::check(&mut cursor) {
        Ok(()) => {
            let used = cursor.position();
            cursor.set_position(0);
            match Frame::parse(&mut cursor) {
                Ok(frame) => Ok(Some((frame, used))),
                Err(e) => Err(e),
            }
        },
        Err(FrameError::Incomplete) => Ok(None),
        Err(e) => Err(e),
    }
}

/// How a connection ends when its peer closes it.
pub enum Closed {
    /// The peer closed between two frames.
    Clean,
    /// The peer closed in the middle of a frame.
    Reset,
}

/// How a connection ends when its peer closes it and `buffered` bytes are
/// read and not used yet: cleanly where there are none, else as a reset.
pub fn closed_with(buffered: usize) -> (r: Closed)
    ensures
        r is Clean <==> buffered == 0,
{
    if buffered == 0 {
        Closed::Clean
    } else {
        Closed::Reset
    }
}

} // verus!
