//! RESP frames, and how they are read from a buffer of bytes.

use crate::decimal::{decimal_string, decimal_text, parse_decimal, to_u64};
use crate::text::from_utf8;
use vstd::prelude::*;
use vstd::slice::{slice_subrange, slice_to_vec};
use vstd::string::StringExecFns;
use vstd::utf8::{decode_utf8, encode_utf8_decode_utf8, valid_utf8};

verus! {

/// Carriage return, the first byte of a line break.
pub const CR: u8 = 13;

/// Line feed, the second byte of a line break.
pub const LF: u8 = 10;

/// `+`, the first byte of a simple string.
pub const TAG_SIMPLE: u8 = 43;

/// `-`, the first byte of an error, and of the length of a null.
pub const TAG_ERROR: u8 = 45;

/// `:`, the first byte of an integer.
pub const TAG_INTEGER: u8 = 58;

/// `$`, the first byte of a bulk string and of a null.
pub const TAG_BULK: u8 = 36;

/// `*`, the first byte of an array.
pub const TAG_ARRAY: u8 = 42;

/// What stands for the length in a null: `-1`.
pub open spec fn null_length() -> Seq<u8> {
    seq![45u8, 49u8]
}

/// A frame of the RESP protocol.
#[derive(Debug)]
pub enum Frame {
    Simple(String),
    Error(String),
    Integer(u64),
    Bulk(Vec<u8>),
    Null,
    Array(Vec<Frame>),
}

/// Why no frame could be read.
#[derive(Debug)]
pub enum FrameError {
    /// The buffer ends before the frame does.
    Incomplete,
    /// The bytes are not a frame; the text says why.
    Other(String),
}

/// What a frame holds, as mathematical values.
pub enum FrameView {
    Simple(Seq<char>),
    Error(Seq<char>),
    Integer(u64),
    Bulk(Seq<u8>),
    Null,
    Array(Seq<FrameView>),
}

/// What `frame` holds, as mathematical values: of an array, the views of
/// its items in order (see `lemma_array_view`).
pub open spec fn frame_view(frame: Frame) -> FrameView
    decreases frame,
{
    match frame {
        Frame::Simple(s) => FrameView::Simple(s@),
        Frame::Error(s) => FrameView::Error(s@),
        Frame::Integer(v) => FrameView::Integer(v),
        Frame::Bulk(b) => FrameView::Bulk(b@),
        Frame::Null => FrameView::Null,
        Frame::Array(items) => FrameView::Array(frames_view_upto(items, items@.len())),
    }
}

/// The views of the first `n` frames of `items`, in order.
pub open spec fn frames_view_upto(items: Vec<Frame>, n: nat) -> Seq<FrameView>
    decreases items, n,
{
    if n == 0 || n > items@.len() {
        Seq::empty()
    } else {
        frames_view_upto(items, (n - 1) as nat).push(frame_view(items[n - 1]))
    }
}

impl View for Frame {
    type V = FrameView;

    open spec fn view(&self) -> FrameView {
        frame_view(*self)
    }
}

impl Clone for Frame {
    /// A frame that holds what `self` holds.
    fn clone(&self) -> (r: Frame)
        ensures
            r@ == self@,
        decreases self,
    {
        match self {
            Frame::Simple(s) => Frame::Simple(s.clone()),
            Frame::Error(s) => Frame::Error(s.clone()),
            Frame::Integer(v) => Frame::Integer(*v),
            Frame::Bulk(b) => Frame::Bulk(b.clone()),
            Frame::Null => Frame::Null,
            Frame::Array(items) => {
                let mut out: Vec<Frame> = Vec::new();
                let mut i: usize = 0;
                assert(decreases_to!(*self => *items));
                while i < items.len()
                    invariant
                        i <= items.len(),
                        decreases_to!(*self => *items),
                        out.len() == i,
                        *self == Frame::Array(*items),
                        forall|j: int| 0 <= j < i ==> out@[j]@ == items@[j]@,
                    decreases items.len() - i,
                {
                    let source = &items[i];
                    assert(decreases_to!(*items => items[i as int]));
                    let item = source.clone();
                    out.push(item);
                    i += 1;
                }
                proof {
                    lemma_array_view(out);
                    lemma_array_view(*items);
                    assert(frames_view(out@) =~= frames_view(items@));
                }
                Frame::Array(out)
            },
        }
    }
}

/// The views of the frames of `items`, in order.
pub open spec fn frames_view(items: Seq<Frame>) -> Seq<FrameView> {
    Seq::new(items.len(), |i: int| items[i]@)
}

/// The view of an array frame is the views of its items.
pub proof fn lemma_array_view(items: Vec<Frame>)
    ensures
        Frame::Array(items)@ == FrameView::Array(frames_view(items@)),
{
    lemma_frames_view_upto(items, items@.len());
    assert(frames_view_upto(items, items@.len()) =~= frames_view(items@));
}

/// The views of the first `n` frames are `n` views, each that of its frame.
proof fn lemma_frames_view_upto(items: Vec<Frame>, n: nat)
    requires
        n <= items@.len(),
    ensures
        frames_view_upto(items, n).len() == n,
        forall|i: int| 0 <= i < n ==> #[trigger] frames_view_upto(items, n)[i] == items@[i]@,
    decreases n,
{
    if n > 0 {
        lemma_frames_view_upto(items, (n - 1) as nat);
    }
}

/// A buffer of bytes and a position in it.
pub struct Cursor<'a> {
    pub buf: &'a [u8],
    pub pos: usize,
}

impl<'a> Cursor<'a> {
    /// A cursor at the start of `buf`.
    pub fn new(buf: &'a [u8]) -> (c: Cursor<'a>)
        ensures
            c.buf == buf,
            c.pos == 0,
    {
        Cursor { buf, pos: 0 }
    }

    /// The position of the cursor.
    pub fn position(&self) -> (p: usize)
        ensures
            p == self.pos,
    {
        self.pos
    }

    /// Moves the cursor to `pos`.
    pub fn set_position(&mut self, pos: usize)
        ensures
            final(self).buf == old(self).buf,
            final(self).pos == pos,
    {
        self.pos = pos;
    }

    /// The whole buffer.
    pub fn get_ref(&self) -> (b: &'a [u8])
        ensures
            b == self.buf,
    {
        self.buf
    }

    /// The number of bytes from the position to the end of the buffer.
    pub open spec fn spec_remaining(&self) -> nat {
        if self.pos <= self.buf@.len() {
            (self.buf@.len() - self.pos) as nat
        } else {
            0
        }
    }

    /// The number of bytes from the position to the end of the buffer.
    pub fn remaining(&self) -> (n: usize)
        ensures
            n == self.spec_remaining(),
    {
        if self.pos <= self.buf.len() {
            self.buf.len() - self.pos
        } else {
            0
        }
    }
}

/// The position of the first line break (CR, then LF) of `s` that starts at
/// `from` or later, if there is one.
pub open spec fn line_end(s: Seq<u8>, from: int) -> Option<int>
    decreases s.len() - from,
{
    if from < 0 || from + 1 >= s.len() {
        None
    } else if s[from] == CR && s[from + 1] == LF {
        Some(from)
    } else {
        line_end(s, from + 1)
    }
}

/// Where `line_end` finds a line break, it is the first one from `from` on,
/// and it lies within the buffer.
pub proof fn lemma_line_end(s: Seq<u8>, from: int)
    ensures
        match line_end(s, from) {
            Some(e) => {
                &&& 0 <= from <= e
                &&& e + 2 <= s.len()
                &&& s[e] == CR
                &&& s[e + 1] == LF
                &&& forall|i: int| from <= i < e ==> !(s[i] == CR && #[trigger] s[i + 1] == LF)
            },
            None => forall|i: int|
                0 <= from <= i && i + 1 < s.len() ==> !(s[i] == CR && #[trigger] s[i + 1] == LF),
        },
    decreases s.len() - from,
{
    if from < 0 || from + 1 >= s.len() {
    } else if s[from] == CR && s[from + 1] == LF {
    } else {
        lemma_line_end(s, from + 1);
    }
}

/// The byte at the position, which stays where it is.
pub fn peek_u8(src: &mut Cursor) -> (r: Result<u8, FrameError>)
    ensures
        *final(src) == *old(src),
        old(src).pos < old(src).buf@.len() ==> r == Ok::<u8, FrameError>(
            old(src).buf@[old(src).pos as int],
        ),
        old(src).pos >= old(src).buf@.len() ==> r matches Err(FrameError::Incomplete),
{
    if src.pos >= src.buf.len() {
        return Err(FrameError::Incomplete);
    }
    Ok(src.buf[src.pos])
}

/// The byte at the position, which moves past it.
pub fn get_u8(src: &mut Cursor) -> (r: Result<u8, FrameError>)
    ensures
        final(src).buf == old(src).buf,
        old(src).pos < old(src).buf@.len() ==> r == Ok::<u8, FrameError>(
            old(src).buf@[old(src).pos as int],
        ) && final(src).pos == old(src).pos + 1,
        old(src).pos >= old(src).buf@.len() ==> (r matches Err(FrameError::Incomplete))
            && final(src).pos == old(src).pos,
{
    if src.pos >= src.buf.len() {
        return Err(FrameError::Incomplete);
    }
    let b = src.buf[src.pos];
    src.pos = src.pos + 1;
    Ok(b)
}

/// Moves the position `n` bytes on, if the buffer holds that many.
pub fn skip(src: &mut Cursor, n: usize) -> (r: Result<(), FrameError>)
    ensures
        final(src).buf == old(src).buf,
        old(src).spec_remaining() >= n ==> r is Ok && final(src).pos == old(src).pos + n,
        old(src).spec_remaining() < n ==> (r matches Err(FrameError::Incomplete))
            && final(src).pos == old(src).pos,
{
    if n == 0 {
        return Ok(());
    }
    if src.remaining() < n {
        return Err(FrameError::Incomplete);
    }
    assert(src.pos + n <= src.buf.len());
    src.pos = src.pos + n;
    Ok(())
}

/// The bytes from the position to the next line break, which the position
/// moves past. Without a line break the position stays.
pub fn get_line<'a>(src: &mut Cursor<'a>) -> (r: Result<&'a [u8], FrameError>)
    ensures
        final(src).buf == old(src).buf,
        match line_end(old(src).buf@, old(src).pos as int) {
            Some(e) => {
                &&& r matches Ok(line)
                &&& line@ == old(src).buf@.subrange(old(src).pos as int, e)
                &&& final(src).pos == e + 2
            },
            None => (r matches Err(FrameError::Incomplete)) && final(src).pos == old(src).pos,
        },
{
    let start = src.pos;
    let buf = src.buf;
    if buf.len() < 2 || start > buf.len() - 2 {
        return Err(FrameError::Incomplete);
    }
    let mut i = start;
    while i < buf.len() - 1
        invariant
            buf.len() >= 2,
            start <= i <= buf.len() - 1,
            src.buf == buf,
            src.pos == start,
            buf == old(src).buf,
            start == old(src).pos,
            line_end(buf@, start as int) == line_end(buf@, i as int),
        decreases buf.len() - i,
    {
        if buf[i] == CR && buf[i + 1] == LF {
            src.pos = i + 2;
            return Ok(slice_subrange(buf, start, i));
        }
        i += 1;
    }
    Err(FrameError::Incomplete)
}

/// The error for bytes that are not a frame.
fn invalid_format() -> (e: FrameError)
    ensures
        e matches FrameError::Other(text) && text@ == "protocol error; invalid frame format"@,
{
    FrameError::Other("protocol error; invalid frame format".to_owned())
}

/// The unsigned decimal number on the line at the position.
pub fn get_decimal(src: &mut Cursor) -> (r: Result<u64, FrameError>)
    ensures
        final(src).buf == old(src).buf,
        match line_end(old(src).buf@, old(src).pos as int) {
            Some(e) => {
                &&& final(src).pos == e + 2
                &&& match parse_decimal(old(src).buf@.subrange(old(src).pos as int, e)) {
                    Some(v) => r == Ok::<u64, FrameError>(v),
                    None => r matches Err(FrameError::Other(_)),
                }
            },
            None => (r matches Err(FrameError::Incomplete)) && final(src).pos == old(src).pos,
        },
{
    match get_line(src) {
        Ok(line) => match to_u64(line) {
            Some(v) => Ok(v),
            None => Err(invalid_format()),
        },
        Err(e) => Err(e),
    }
}

/// What reading one item from a buffer comes to.
pub enum Outcome<T> {
    /// A whole item: its value, and the position just after it.
    Complete(T, int),
    /// The buffer ends before the item does.
    Incomplete,
    /// The bytes are not such an item.
    Protocol,
}

/// The decimal number on the line that starts at `from`.
pub open spec fn spec_decimal_line(s: Seq<u8>, from: int) -> Outcome<u64> {
    match line_end(s, from) {
        Some(e) => match parse_decimal(s.subrange(from, e)) {
            Some(v) => Outcome::Complete(v, e + 2),
            None => Outcome::Protocol,
        },
        None => Outcome::Incomplete,
    }
}

/// The length on the line that starts at `from`: a decimal number that a
/// `usize` can hold.
pub open spec fn spec_length_line(s: Seq<u8>, from: int) -> Outcome<nat> {
    match spec_decimal_line(s, from) {
        Outcome::Complete(v, end) => if v <= usize::MAX {
            Outcome::Complete(v as nat, end)
        } else {
            Outcome::Protocol
        },
        Outcome::Incomplete => Outcome::Incomplete,
        Outcome::Protocol => Outcome::Protocol,
    }
}

/// The text on the line that starts at `from`, which must be UTF-8.
pub open spec fn spec_text_line(s: Seq<u8>, from: int) -> Outcome<Seq<char>> {
    match line_end(s, from) {
        Some(e) => if valid_utf8(s.subrange(from, e)) {
            Outcome::Complete(decode_utf8(s.subrange(from, e)), e + 2)
        } else {
            Outcome::Protocol
        },
        None => Outcome::Incomplete,
    }
}

/// The `n` bytes of a bulk string that start at `from`, and the two bytes
/// after them, which are not looked at.
pub open spec fn spec_payload(s: Seq<u8>, from: int, n: nat) -> Outcome<Seq<u8>> {
    if s.len() - from < n + 2 {
        Outcome::Incomplete
    } else {
        Outcome::Complete(s.subrange(from, from + n), from + n + 2)
    }
}

/// The frame that starts at `pos` of `s`, as `Frame::check` sees it: where it
/// ends, without its value. Texts are not decoded, and the line of a null may
/// hold anything after its `-`.
pub open spec fn spec_check(s: Seq<u8>, pos: int) -> Outcome<()>
    decreases s.len() - pos, 0nat,
{
    if pos < 0 || pos >= s.len() {
        Outcome::Incomplete
    } else if s[pos] == TAG_SIMPLE || s[pos] == TAG_ERROR {
        match line_end(s, pos + 1) {
            Some(e) => Outcome::Complete((), e + 2),
            None => Outcome::Incomplete,
        }
    } else if s[pos] == TAG_INTEGER {
        match spec_decimal_line(s, pos + 1) {
            Outcome::Complete(_, end) => Outcome::Complete((), end),
            Outcome::Incomplete => Outcome::Incomplete,
            Outcome::Protocol => Outcome::Protocol,
        }
    } else if s[pos] == TAG_BULK {
        if pos + 1 >= s.len() {
            Outcome::Incomplete
        } else if s[pos + 1] == TAG_ERROR {
            match line_end(s, pos + 1) {
                Some(e) => Outcome::Complete((), e + 2),
                None => Outcome::Incomplete,
            }
        } else {
            match spec_length_line(s, pos + 1) {
                Outcome::Complete(n, start) => match spec_payload(s, start, n) {
                    Outcome::Complete(_, end) => Outcome::Complete((), end),
                    Outcome::Incomplete => Outcome::Incomplete,
                    Outcome::Protocol => Outcome::Protocol,
                },
                Outcome::Incomplete => Outcome::Incomplete,
                Outcome::Protocol => Outcome::Protocol,
            }
        }
    } else if s[pos] == TAG_ARRAY {
        match spec_length_line(s, pos + 1) {
            Outcome::Complete(n, start) => {
                proof {
                    lemma_line_end(s, pos + 1);
                }
                spec_check_items(s, start, n)
            },
            Outcome::Incomplete => Outcome::Incomplete,
            Outcome::Protocol => Outcome::Protocol,
        }
    } else {
        Outcome::Protocol
    }
}

/// `count` frames in a row from `pos` of `s`, as `Frame::check` sees them.
///
/// A frame ends after the place where it starts and within the buffer; the
/// test for that is there for the recursion to be well founded.
pub open spec fn spec_check_items(s: Seq<u8>, pos: int, count: nat) -> Outcome<()>
    decreases s.len() - pos, count + 1,
{
    if count == 0 {
        Outcome::Complete((), pos)
    } else {
        match spec_check(s, pos) {
            Outcome::Complete(_, next) => if pos < next <= s.len() {
                spec_check_items(s, next, (count - 1) as nat)
            } else {
                Outcome::Protocol
            },
            Outcome::Incomplete => Outcome::Incomplete,
            Outcome::Protocol => Outcome::Protocol,
        }
    }
}

/// The frame that starts at `pos` of `s`: its value and where it ends.
pub open spec fn spec_parse(s: Seq<u8>, pos: int) -> Outcome<FrameView>
    decreases s.len() - pos, 0nat,
{
    if pos < 0 || pos >= s.len() {
        Outcome::Incomplete
    } else if s[pos] == TAG_SIMPLE {
        match spec_text_line(s, pos + 1) {
            Outcome::Complete(text, end) => Outcome::Complete(FrameView::Simple(text), end),
            Outcome::Incomplete => Outcome::Incomplete,
            Outcome::Protocol => Outcome::Protocol,
        }
    } else if s[pos] == TAG_ERROR {
        match spec_text_line(s, pos + 1) {
            Outcome::Complete(text, end) => Outcome::Complete(FrameView::Error(text), end),
            Outcome::Incomplete => Outcome::Incomplete,
            Outcome::Protocol => Outcome::Protocol,
        }
    } else if s[pos] == TAG_INTEGER {
        match spec_decimal_line(s, pos + 1) {
            Outcome::Complete(v, end) => Outcome::Complete(FrameView::Integer(v), end),
            Outcome::Incomplete => Outcome::Incomplete,
            Outcome::Protocol => Outcome::Protocol,
        }
    } else if s[pos] == TAG_BULK {
        if pos + 1 >= s.len() {
            Outcome::Incomplete
        } else if s[pos + 1] == TAG_ERROR {
            match line_end(s, pos + 1) {
                Some(e) => if s.subrange(pos + 1, e) == null_length() {
                    Outcome::Complete(FrameView::Null, e + 2)
                } else {
                    Outcome::Protocol
                },
                None => Outcome::Incomplete,
            }
        } else {
            match spec_length_line(s, pos + 1) {
                Outcome::Complete(n, start) => match spec_payload(s, start, n) {
                    Outcome::Complete(data, end) => Outcome::Complete(FrameView::Bulk(data), end),
                    Outcome::Incomplete => Outcome::Incomplete,
                    Outcome::Protocol => Outcome::Protocol,
                },
                Outcome::Incomplete => Outcome::Incomplete,
                Outcome::Protocol => Outcome::Protocol,
            }
        }
    } else if s[pos] == TAG_ARRAY {
        match spec_length_line(s, pos + 1) {
            Outcome::Complete(n, start) => {
                proof {
                    lemma_line_end(s, pos + 1);
                }
                match spec_parse_items(s, start, n) {
                    Outcome::Complete(items, end) => Outcome::Complete(
                        FrameView::Array(items),
                        end,
                    ),
                    Outcome::Incomplete => Outcome::Incomplete,
                    Outcome::Protocol => Outcome::Protocol,
                }
            },
            Outcome::Incomplete => Outcome::Incomplete,
            Outcome::Protocol => Outcome::Protocol,
        }
    } else {
        Outcome::Protocol
    }
}

/// `count` frames in a row from `pos` of `s`: their values and where the
/// last one ends.
///
/// A frame ends after the place where it starts and within the buffer; the
/// test for that is there for the recursion to be well founded.
pub open spec fn spec_parse_items(s: Seq<u8>, pos: int, count: nat) -> Outcome<Seq<FrameView>>
    decreases s.len() - pos, count + 1,
{
    if count == 0 {
        Outcome::Complete(Seq::empty(), pos)
    } else {
        match spec_parse(s, pos) {
            Outcome::Complete(first, next) => if pos < next <= s.len() {
                match spec_parse_items(s, next, (count - 1) as nat) {
                    Outcome::Complete(rest, end) => Outcome::Complete(seq![first] + rest, end),
                    Outcome::Incomplete => Outcome::Incomplete,
                    Outcome::Protocol => Outcome::Protocol,
                }
            } else {
                Outcome::Protocol
            },
            Outcome::Incomplete => Outcome::Incomplete,
            Outcome::Protocol => Outcome::Protocol,
        }
    }
}

/// A frame that `spec_check` finds ends after the place where it starts, and
/// within the buffer.
pub proof fn lemma_check_bounds(s: Seq<u8>, pos: int)
    ensures
        spec_check(s, pos) matches Outcome::Complete(_, end) ==> pos < end <= s.len(),
    decreases s.len() - pos, 0nat,
{
    if 0 <= pos < s.len() {
        lemma_line_end(s, pos + 1);
        if s[pos] == TAG_ARRAY {
            if let Outcome::Complete(n, start) = spec_length_line(s, pos + 1) {
                lemma_check_items_bounds(s, start, n);
            }
        }
    }
}

/// Frames in a row that `spec_check_items` finds end within the buffer.
pub proof fn lemma_check_items_bounds(s: Seq<u8>, pos: int, count: nat)
    requires
        pos <= s.len(),
    ensures
        spec_check_items(s, pos, count) matches Outcome::Complete(_, end) ==> pos <= end
            <= s.len(),
    decreases s.len() - pos, count + 1,
{
    if count > 0 {
        if let Outcome::Complete(_, next) = spec_check(s, pos) {
            if pos < next <= s.len() {
                lemma_check_items_bounds(s, next, (count - 1) as nat);
            }
        }
    }
}

/// A frame that `spec_parse` finds ends after the place where it starts, and
/// within the buffer.
pub proof fn lemma_parse_bounds(s: Seq<u8>, pos: int)
    ensures
        spec_parse(s, pos) matches Outcome::Complete(_, end) ==> pos < end <= s.len(),
    decreases s.len() - pos, 0nat,
{
    if 0 <= pos < s.len() {
        lemma_line_end(s, pos + 1);
        if s[pos] == TAG_ARRAY {
            if let Outcome::Complete(n, start) = spec_length_line(s, pos + 1) {
                lemma_parse_items_bounds(s, start, n);
            }
        }
    }
}

/// Frames in a row that `spec_parse_items` finds are as many as were asked
/// for, and end within the buffer.
pub proof fn lemma_parse_items_bounds(s: Seq<u8>, pos: int, count: nat)
    requires
        pos <= s.len(),
    ensures
        spec_parse_items(s, pos, count) matches Outcome::Complete(items, end) ==> pos <= end
            <= s.len() && items.len() == count,
    decreases s.len() - pos, count + 1,
{
    if count > 0 {
        if let Outcome::Complete(_, next) = spec_parse(s, pos) {
            if pos < next <= s.len() {
                lemma_parse_items_bounds(s, next, (count - 1) as nat);
            }
        }
    }
}

/// The text of the error for a frame that starts with `byte`, which starts
/// no kind of frame.
fn invalid_type_byte(byte: u8) -> (e: FrameError)
    ensures
        e matches FrameError::Other(text) && text@ == invalid_type_byte_text(byte),
{
    let mut text = "protocol error; invalid frame type byte `".to_owned();
    text.append(decimal_string(byte as u64).as_str());
    text.append("`");
    FrameError::Other(text)
}

/// What the error for a frame that starts with `byte` says: the byte in
/// decimal, between backticks, after the reason.
pub open spec fn invalid_type_byte_text(byte: u8) -> Seq<char> {
    "protocol error; invalid frame type byte `"@ + decimal_text(byte as u64) + "`"@
}

/// The length on the line at the position: a decimal number that a `usize`
/// can hold.
fn get_length(src: &mut Cursor) -> (r: Result<usize, FrameError>)
    ensures
        final(src).buf == old(src).buf,
        match spec_length_line(old(src).buf@, old(src).pos as int) {
            Outcome::Complete(n, end) => {
                &&& r == Ok::<usize, FrameError>(n as usize)
                &&& final(src).pos == end
            },
            Outcome::Incomplete => r matches Err(FrameError::Incomplete),
            Outcome::Protocol => r matches Err(FrameError::Other(_)),
        },
{
    match get_decimal(src) {
        Ok(v) => {
            if v > usize::MAX as u64 {
                Err(invalid_format())
            } else {
                Ok(v as usize)
            }
        },
        Err(e) => Err(e),
    }
}

impl Frame {
    /// An array frame without items.
    pub fn array() -> (r: Frame)
        ensures
            r@ == FrameView::Array(Seq::empty()),
    {
        let r = Frame::Array(Vec::new());
        assert(r@->Array_0 =~= Seq::empty());
        r
    }

    /// Appends a bulk string that holds `bytes` to the array that `self` is.
    pub fn push_bulk(&mut self, bytes: Vec<u8>)
        requires
            old(self)@ is Array,
        ensures
            final(self)@ == FrameView::Array(old(self)@->Array_0.push(FrameView::Bulk(bytes@))),
    {
        let ghost before = *self;
        match self {
            Frame::Array(items) => {
                proof {
                    lemma_array_view(*items);
                }
                let ghost given = bytes@;
                items.push(Frame::Bulk(bytes));
                proof {
                    lemma_array_view(*items);
                    assert(frames_view(items@) =~= before@->Array_0.push(FrameView::Bulk(given)));
                }
            },
            _ => {},
        }
    }

    /// Appends the integer `value` to the array that `self` is.
    pub fn push_int(&mut self, value: u64)
        requires
            old(self)@ is Array,
        ensures
            final(self)@ == FrameView::Array(old(self)@->Array_0.push(FrameView::Integer(value))),
    {
        let ghost before = *self;
        match self {
            Frame::Array(items) => {
                proof {
                    lemma_array_view(*items);
                }
                items.push(Frame::Integer(value));
                proof {
                    lemma_array_view(*items);
                    assert(frames_view(items@) =~= before@->Array_0.push(
                        FrameView::Integer(value),
                    ));
                }
            },
            _ => {},
        }
    }

    /// Checks that a whole frame stands at the position of `src`, and moves
    /// the position past it, without building it.
    pub fn check(src: &mut Cursor) -> (r: Result<(), FrameError>)
        ensures
            final(src).buf == old(src).buf,
            match spec_check(old(src).buf@, old(src).pos as int) {
                Outcome::Complete(_, end) => {
                    &&& r is Ok
                    &&& final(src).pos == end
                    &&& old(src).pos < end <= old(src).buf@.len()
                },
                Outcome::Incomplete => r matches Err(FrameError::Incomplete),
                Outcome::Protocol => r matches Err(FrameError::Other(_)),
            },
        decreases old(src).buf@.len() - old(src).pos,
    {
        proof {
            lemma_check_bounds(src.buf@, src.pos as int);
            lemma_line_end(src.buf@, src.pos + 1);
        }
        let tag = match get_u8(src) {
            Ok(tag) => tag,
            Err(e) => {
                return Err(e);
            },
        };
        if tag == TAG_SIMPLE || tag == TAG_ERROR {
            match get_line(src) {
                Ok(_) => Ok(()),
                Err(e) => Err(e),
            }
        } else if tag == TAG_INTEGER {
            match get_decimal(src) {
                Ok(_) => Ok(()),
                Err(e) => Err(e),
            }
        } else if tag == TAG_BULK {
            let next = match peek_u8(src) {
                Ok(next) => next,
                Err(e) => {
                    return Err(e);
                },
            };
            if next == TAG_ERROR {
                match get_line(src) {
                    Ok(_) => Ok(()),
                    Err(e) => Err(e),
                }
            } else {
                let len = match get_length(src) {
                    Ok(len) => len,
                    Err(e) => {
                        return Err(e);
                    },
                };
                if src.remaining() < 2 || src.remaining() - 2 < len {
                    return Err(FrameError::Incomplete);
                }
                skip(src, len + 2)
            }
        } else if tag == TAG_ARRAY {
            let count = match get_length(src) {
                Ok(count) => count,
                Err(e) => {
                    return Err(e);
                },
            };
            let ghost s = src.buf@;
            let ghost start = src.pos as int;
            proof {
                lemma_check_items_bounds(s, start, count as nat);
            }
            let mut i: usize = 0;
            while i < count
                invariant
                    i <= count,
                    src.buf == old(src).buf,
                    s == src.buf@,
                    old(src).pos < src.pos <= s.len(),
                    spec_check(s, old(src).pos as int) == spec_check_items(s, start, count as nat),
                    spec_check_items(s, start, count as nat) == spec_check_items(
                        s,
                        src.pos as int,
                        (count - i) as nat,
                    ),
                decreases count - i,
            {
                proof {
                    lemma_check_bounds(s, src.pos as int);
                }
                match Frame::check(src) {
                    Ok(()) => {},
                    Err(e) => {
                        return Err(e);
                    },
                }
                i += 1;
            }
            Ok(())
        } else {
            Err(invalid_type_byte(tag))
        }
    }

    /// Reads the frame at the position of `src`, and moves the position past
    /// it.
    pub fn parse(src: &mut Cursor) -> (r: Result<Frame, FrameError>)
        ensures
            final(src).buf == old(src).buf,
            match spec_parse(old(src).buf@, old(src).pos as int) {
                Outcome::Complete(value, end) => {
                    &&& r matches Ok(frame)
                    &&& frame@ == value
                    &&& final(src).pos == end
                    &&& old(src).pos < end <= old(src).buf@.len()
                },
                Outcome::Incomplete => r matches Err(FrameError::Incomplete),
                Outcome::Protocol => r matches Err(FrameError::Other(_)),
            },
        decreases old(src).buf@.len() - old(src).pos,
    {
        proof {
            lemma_parse_bounds(src.buf@, src.pos as int);
            lemma_line_end(src.buf@, src.pos + 1);
        }
        let tag = match get_u8(src) {
            Ok(tag) => tag,
            Err(e) => {
                return Err(e);
            },
        };
        if tag == TAG_SIMPLE || tag == TAG_ERROR {
            let line = match get_line(src) {
                Ok(line) => line,
                Err(e) => {
                    return Err(e);
                },
            };
            match from_utf8(line) {
                Some(text) => {
                    proof {
                        encode_utf8_decode_utf8(text@);
                    }
                    if tag == TAG_SIMPLE {
                        Ok(Frame::Simple(text.to_owned()))
                    } else {
                        Ok(Frame::Error(text.to_owned()))
                    }
                },
                None => Err(invalid_format()),
            }
        } else if tag == TAG_INTEGER {
            match get_decimal(src) {
                Ok(v) => Ok(Frame::Integer(v)),
                Err(e) => Err(e),
            }
        } else if tag == TAG_BULK {
            let next = match peek_u8(src) {
                Ok(next) => next,
                Err(e) => {
                    return Err(e);
                },
            };
            if next == TAG_ERROR {
                let line = match get_line(src) {
                    Ok(line) => line,
                    Err(e) => {
                        return Err(e);
                    },
                };
                if line.len() == 2 && line[0] == 45 && line[1] == 49 {
                    assert(line@ =~= null_length());
                    Ok(Frame::Null)
                } else {
                    Err(invalid_format())
                }
            } else {
                let len = match get_length(src) {
                    Ok(len) => len,
                    Err(e) => {
                        return Err(e);
                    },
                };
                if src.remaining() < 2 || src.remaining() - 2 < len {
                    return Err(FrameError::Incomplete);
                }
                assert(src.pos + len + 2 <= src.buf.len());
                let data = slice_to_vec(slice_subrange(src.buf, src.pos, src.pos + len));
                src.pos = src.pos + len + 2;
                Ok(Frame::Bulk(data))
            }
        } else if tag == TAG_ARRAY {
            let count = match get_length(src) {
                Ok(count) => count,
                Err(e) => {
                    return Err(e);
                },
            };
            let ghost s = src.buf@;
            let ghost start = src.pos as int;
            proof {
                lemma_parse_items_bounds(s, start, count as nat);
            }
            let mut out: Vec<Frame> = Vec::new();
            let mut i: usize = 0;
            while i < count
                invariant
                    i <= count,
                    src.buf == old(src).buf,
                    s == src.buf@,
                    old(src).pos < src.pos <= s.len(),
                    spec_parse(s, old(src).pos as int) == (match spec_parse_items(
                        s,
                        start,
                        count as nat,
                    ) {
                        Outcome::Complete(items, end) => Outcome::Complete(
                            FrameView::Array(items),
                            end,
                        ),
                        Outcome::Incomplete => Outcome::Incomplete,
                        Outcome::Protocol => Outcome::Protocol,
                    }),
                    spec_parse_items(s, start, count as nat) == (match spec_parse_items(
                        s,
                        src.pos as int,
                        (count - i) as nat,
                    ) {
                        Outcome::Complete(rest, end) => Outcome::Complete(
                            frames_view(out@) + rest,
                            end,
                        ),
                        Outcome::Incomplete => Outcome::Incomplete,
                        Outcome::Protocol => Outcome::Protocol,
                    }),
                decreases count - i,
            {
                proof {
                    lemma_parse_bounds(s, src.pos as int);
                }
                let ghost before = out@;
                let ghost here = src.pos as int;
                let item = match Frame::parse(src) {
                    Ok(item) => item,
                    Err(e) => {
                        return Err(e);
                    },
                };
                out.push(item);
                i += 1;
                proof {
                    if let Outcome::Complete(rest, end) = spec_parse_items(
                        s,
                        src.pos as int,
                        (count - i) as nat,
                    ) {
                        assert(frames_view(before) + (seq![item@] + rest) =~= frames_view(out@)
                            + rest);
                    }
                }
            }
            assert(frames_view(out@) + Seq::<FrameView>::empty() =~= frames_view(out@));
            proof {
                lemma_array_view(out);
            }
            Ok(Frame::Array(out))
        } else {
            Err(invalid_type_byte(tag))
        }
    }
}

} // verus!
