//! `PING [message]`: an answer that shows the server is there.

use crate::frame::{Frame, FrameView};
use crate::parse::{frame_string, ErrorKind, Parse, ParseError};
use vstd::prelude::*;
use vstd::slice::slice_to_vec;
use vstd::string::StrSliceExecFns;
use vstd::utf8::encode_utf8;

verus! {

/// The command that asks for a sign of life.
#[derive(Debug)]
pub struct Ping {
    /// The message to hand back, if one was given.
    pub msg: Option<String>,
}

/// What a `Ping` holds.
pub struct PingView {
    pub msg: Option<Seq<char>>,
}

impl View for Ping {
    type V = PingView;

    open spec fn view(&self) -> PingView {
        PingView {
            msg: match self.msg {
                Some(msg) => Some(msg@),
                None => None,
            },
        }
    }
}

impl Default for Ping {
    /// The command without a message.
    fn default() -> (r: Ping)
        ensures
            r@ == (PingView { msg: None }),
    {
        Ping { msg: None }
    }
}

impl Ping {
    /// The command that hands `msg` back, or answers `PONG` without one.
    pub fn new(msg: Option<String>) -> (r: Ping)
        ensures
            r.msg == msg,
    {
        Ping { msg }
    }

    /// What the arguments `args` of a `PING` come to: the command and the
    /// arguments that it leaves.
    pub open spec fn spec_parse_frames(args: Seq<FrameView>) -> Result<
        (PingView, Seq<FrameView>),
        ErrorKind,
    > {
        if args.len() == 0 {
            Ok((PingView { msg: None }, args))
        } else {
            match frame_string(args[0]) {
                Some(text) => Ok((PingView { msg: Some(text) }, args.drop_first())),
                None => Err(ErrorKind::Protocol),
            }
        }
    }

    /// Reads the arguments of a `PING` from `parse`.
    pub fn parse_frames(parse: &mut Parse) -> (r: Result<Ping, ParseError>)
        ensures
            match Ping::spec_parse_frames(old(parse).remaining()) {
                Ok((view, rest)) => r matches Ok(cmd) && cmd@ == view && final(parse).remaining()
                    == rest,
                Err(kind) => r matches Err(e) && e.kind() == kind,
            },
    {
        match parse.next_string() {
            Ok(msg) => Ok(Ping::new(Some(msg))),
            Err(ParseError::EndOfStream) => Ok(Ping::default()),
            Err(e) => Err(e),
        }
    }

    /// The answer to this command: `PONG`, or the message that was given.
    pub open spec fn spec_apply(view: PingView) -> FrameView {
        match view.msg {
            None => FrameView::Simple("PONG"@),
            Some(msg) => FrameView::Bulk(encode_utf8(msg)),
        }
    }

    /// The answer to this command.
    pub fn apply(self) -> (r: Frame)
        ensures
            r@ == Ping::spec_apply(self@),
    {
        match self.msg {
            None => Frame::Simple("PONG".to_owned()),
            Some(msg) => Frame::Bulk(msg.as_str().as_bytes_vec()),
        }
    }

    /// The frame that asks a server for this command.
    pub open spec fn spec_into_frame(view: PingView) -> FrameView {
        match view.msg {
            None => FrameView::Array(seq![FrameView::Bulk(encode_utf8("ping"@))]),
            Some(msg) => FrameView::Array(
                seq![FrameView::Bulk(encode_utf8("ping"@)), FrameView::Bulk(encode_utf8(msg))],
            ),
        }
    }

    /// The frame that asks a server for this command.
    pub fn into_frame(self) -> (r: Frame)
        ensures
            r@ == Ping::spec_into_frame(self@),
    {
        let mut frame = Frame::array();
        frame.push_bulk(slice_to_vec("ping".as_bytes()));
        if let Some(msg) = self.msg {
            frame.push_bulk(msg.as_str().as_bytes_vec());
        }
        assert(frame@->Array_0 =~= Ping::spec_into_frame(self@)->Array_0);
        frame
    }
}

} // verus!
