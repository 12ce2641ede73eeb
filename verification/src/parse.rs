//! A cursor over the frames of an array frame, with typed reads: the way a
//! command takes its arguments.

use crate::decimal::{parse_decimal, to_u64};
use crate::frame::{frames_view, lemma_array_view, Frame, FrameView};
use crate::text::{debug_form, debug_text, from_utf8};
use vstd::prelude::*;
use vstd::string::StringExecFns;
use vstd::utf8::{decode_utf8, encode_utf8, encode_utf8_decode_utf8, valid_utf8};

verus! {

/// The frames of a command that have not been read yet.
pub struct Parse {
    /// The frames still to read, the next one last.
    parts: Vec<Frame>,
}

/// Why a read from a `Parse` failed.
#[derive(Debug)]
pub enum ParseError {
    /// No frame is left.
    EndOfStream,
    /// The frame is not of the kind that was asked for; the text says more.
    Other(String),
}

/// The two kinds of failure of a read.
pub enum ErrorKind {
    /// No frame is left.
    EndOfStream,
    /// A frame is there, of the wrong kind.
    Protocol,
}

/// The text that a frame stands for, if it stands for one: that of a simple
/// string, or that of a bulk string that is UTF-8.
pub open spec fn frame_string(frame: FrameView) -> Option<Seq<char>> {
    match frame {
        FrameView::Simple(text) => Some(text),
        FrameView::Bulk(data) => if valid_utf8(data) {
            Some(decode_utf8(data))
        } else {
            None
        },
        _ => None,
    }
}

/// The bytes that a frame stands for, if it stands for some: those of a
/// simple string or of a bulk string.
pub open spec fn frame_bytes(frame: FrameView) -> Option<Seq<u8>> {
    match frame {
        FrameView::Simple(text) => Some(encode_utf8(text)),
        FrameView::Bulk(data) => Some(data),
        _ => None,
    }
}

/// The number that a frame stands for, if it stands for one: that of an
/// integer, or the decimal number that a simple or bulk string spells.
pub open spec fn frame_int(frame: FrameView) -> Option<u64> {
    match frame {
        FrameView::Integer(v) => Some(v),
        FrameView::Simple(text) => parse_decimal(encode_utf8(text)),
        FrameView::Bulk(data) => parse_decimal(data),
        _ => None,
    }
}

/// What reading a text from the front of `args` comes to: the text and the
/// frames after it.
pub open spec fn take_string(args: Seq<FrameView>) -> Result<(Seq<char>, Seq<FrameView>), ErrorKind> {
    if args.len() == 0 {
        Err(ErrorKind::EndOfStream)
    } else {
        match frame_string(args[0]) {
            Some(text) => Ok((text, args.drop_first())),
            None => Err(ErrorKind::Protocol),
        }
    }
}

/// What reading bytes from the front of `args` comes to: the bytes and the
/// frames after them.
pub open spec fn take_bytes(args: Seq<FrameView>) -> Result<(Seq<u8>, Seq<FrameView>), ErrorKind> {
    if args.len() == 0 {
        Err(ErrorKind::EndOfStream)
    } else {
        match frame_bytes(args[0]) {
            Some(bytes) => Ok((bytes, args.drop_first())),
            None => Err(ErrorKind::Protocol),
        }
    }
}

/// What reading a number from the front of `args` comes to: the number and
/// the frames after it.
pub open spec fn take_int(args: Seq<FrameView>) -> Result<(u64, Seq<FrameView>), ErrorKind> {
    if args.len() == 0 {
        Err(ErrorKind::EndOfStream)
    } else {
        match frame_int(args[0]) {
            Some(v) => Ok((v, args.drop_first())),
            None => Err(ErrorKind::Protocol),
        }
    }
}

/// What the error for a frame of the wrong kind says: what was expected, and
/// the frame that was found in its `Debug` form.
pub open spec fn unexpected_text(what: Seq<char>, found: FrameView) -> Seq<char> {
    "protocol error; expected "@ + what + ", got "@ + debug_form(found)
}

impl ParseError {
    /// Which of the two kinds of failure this is.
    pub open spec fn kind(&self) -> ErrorKind {
        match self {
            ParseError::EndOfStream => ErrorKind::EndOfStream,
            ParseError::Other(_) => ErrorKind::Protocol,
        }
    }

    /// The error for a frame of the wrong kind: `what` was expected, `frame`
    /// was found.
    fn unexpected(what: &str, frame: &Frame) -> (e: ParseError)
        ensures
            e matches ParseError::Other(text) && text@ == unexpected_text(what@, frame@),
    {
        ParseError::expected(what, debug_text(frame).as_str())
    }

    /// The error for a frame of the wrong kind: `what` was expected, and what
    /// was found reads `found`.
    pub fn expected(what: &str, found: &str) -> (e: ParseError)
        ensures
            e matches ParseError::Other(text) && text@ == "protocol error; expected "@ + what@
                + ", got "@ + found@,
    {
        let mut text = "protocol error; expected ".to_owned();
        text.append(what);
        text.append(", got ");
        text.append(found);
        ParseError::Other(text)
    }

    /// The error with the given text.
    pub fn other(text: &str) -> (e: ParseError)
        ensures
            e matches ParseError::Other(t) && t@ == text@,
    {
        ParseError::Other(text.to_owned())
    }
}

impl Parse {
    /// The frames that have not been read yet, in the order in which they
    /// will be read.
    pub closed spec fn remaining(&self) -> Seq<FrameView> {
        Seq::new(self.parts@.len(), |i: int| self.parts@[self.parts@.len() - 1 - i]@)
    }

    /// A cursor over the items of `frame`, which must be an array.
    pub fn new(frame: Frame) -> (r: Result<Parse, ParseError>)
        ensures
            match frame@ {
                FrameView::Array(items) => r matches Ok(parse) && parse.remaining() == items,
                _ => r matches Err(ParseError::Other(_)),
            },
    {
        match frame {
            Frame::Array(mut items) => {
                let ghost views = frames_view(items@);
                proof {
                    lemma_array_view(items);
                }
                let mut parts: Vec<Frame> = Vec::new();
                while items.len() > 0
                    invariant
                        views.len() == items@.len() + parts@.len(),
                        forall|i: int|
                            0 <= i < items@.len() ==> (#[trigger] items@[i])@ == views[i],
                        forall|i: int|
                            0 <= i < parts@.len() ==> (#[trigger] parts@[i])@ == views[views.len()
                                - 1 - i],
                    decreases items.len(),
                {
                    let item = items.pop().unwrap();
                    parts.push(item);
                }
                let parse = Parse { parts };
                assert(parse.remaining() =~= views);
                Ok(parse)
            },
            frame => Err(ParseError::unexpected("array", &frame)),
        }
    }

    /// The next frame, which is then read.
    pub fn next(&mut self) -> (r: Result<Frame, ParseError>)
        ensures
            old(self).remaining().len() > 0 ==> {
                &&& r matches Ok(frame)
                &&& frame@ == old(self).remaining()[0]
                &&& final(self).remaining() == old(self).remaining().drop_first()
            },
            old(self).remaining().len() == 0 ==> {
                &&& r matches Err(ParseError::EndOfStream)
                &&& final(self).remaining() == old(self).remaining()
            },
    {
        match self.parts.pop() {
            Some(frame) => {
                assert(self.remaining() =~= old(self).remaining().drop_first());
                Ok(frame)
            },
            None => Err(ParseError::EndOfStream),
        }
    }

    /// Reads the next frame as a text.
    pub fn next_string(&mut self) -> (r: Result<String, ParseError>)
        ensures
            match take_string(old(self).remaining()) {
                Ok((text, rest)) => r matches Ok(s) && s@ == text && final(self).remaining() == rest,
                Err(kind) => r matches Err(e) && e.kind() == kind,
            },
            old(self).remaining().len() == 0 ==> final(self).remaining() == old(self).remaining(),
            old(self).remaining().len() > 0 ==> final(self).remaining()
                == old(self).remaining().drop_first(),
    {
        match self.next() {
            Ok(Frame::Simple(s)) => Ok(s),
            Ok(Frame::Bulk(data)) => match from_utf8(data.as_slice()) {
                Some(text) => {
                    proof {
                        encode_utf8_decode_utf8(text@);
                    }
                    Ok(text.to_owned())
                },
                None => Err(ParseError::other("protocol error; invalid string")),
            },
            Ok(frame) => Err(ParseError::unexpected("simple frame or bulk frame", &frame)),
            Err(e) => Err(e),
        }
    }

    /// Reads the next frame as bytes.
    pub fn next_bytes(&mut self) -> (r: Result<Vec<u8>, ParseError>)
        ensures
            match take_bytes(old(self).remaining()) {
                Ok((bytes, rest)) => r matches Ok(b) && b@ == bytes && final(self).remaining()
                    == rest,
                Err(kind) => r matches Err(e) && e.kind() == kind,
            },
            old(self).remaining().len() == 0 ==> final(self).remaining() == old(self).remaining(),
            old(self).remaining().len() > 0 ==> final(self).remaining()
                == old(self).remaining().drop_first(),
    {
        match self.next() {
            Ok(Frame::Simple(s)) => Ok(s.as_str().as_bytes_vec()),
            Ok(Frame::Bulk(data)) => Ok(data),
            Ok(frame) => Err(ParseError::unexpected("simple frame or bulk frame", &frame)),
            Err(e) => Err(e),
        }
    }

    /// Reads the next frame as an unsigned 64-bit number.
    pub fn next_int(&mut self) -> (r: Result<u64, ParseError>)
        ensures
            match take_int(old(self).remaining()) {
                Ok((v, rest)) => r == Ok::<u64, ParseError>(v) && final(self).remaining() == rest,
                Err(kind) => r matches Err(e) && e.kind() == kind,
            },
            old(self).remaining().len() == 0 ==> final(self).remaining() == old(self).remaining(),
            old(self).remaining().len() > 0 ==> final(self).remaining()
                == old(self).remaining().drop_first(),
    {
        match self.next() {
            Ok(Frame::Integer(v)) => Ok(v),
            Ok(Frame::Simple(s)) => match to_u64(s.as_str().as_bytes()) {
                Some(v) => Ok(v),
                None => Err(ParseError::other("protocol error; invalid number")),
            },
            Ok(Frame::Bulk(data)) => match to_u64(data.as_slice()) {
                Some(v) => Ok(v),
                None => Err(ParseError::other("protocol error; invalid number")),
            },
            Ok(frame) => Err(ParseError::unexpected("int frame", &frame)),
            Err(e) => Err(e),
        }
    }

    /// Checks that every frame has been read.
    pub fn finish(&mut self) -> (r: Result<(), ParseError>)
        ensures
            final(self).remaining() == old(self).remaining(),
            old(self).remaining().len() == 0 ==> r is Ok,
            old(self).remaining().len() > 0 ==> r matches Err(ParseError::Other(_)),
    {
        if self.parts.len() == 0 {
            Ok(())
        } else {
            Err(ParseError::other("protocol error; expected end of frame, but there was more"))
        }
    }
}

} // verus!
