//! `PUBLISH channel message`: a message for the subscribers of a channel.

use crate::db::Db;
use crate::frame::{Frame, FrameView};
use crate::parse::{take_bytes, take_string, ErrorKind, Parse, ParseError};
use vstd::prelude::*;
use vstd::slice::slice_to_vec;
use vstd::string::StrSliceExecFns;
use vstd::utf8::encode_utf8;

verus! {

/// The command that sends a message to a channel.
#[derive(Debug)]
pub struct Publish {
    /// The name of the channel.
    pub channel: String,
    /// The message.
    pub message: Vec<u8>,
}

/// What a `Publish` holds.
pub struct PublishView {
    pub channel: Seq<char>,
    pub message: Seq<u8>,
}

impl View for Publish {
    type V = PublishView;

    open spec fn view(&self) -> PublishView {
        PublishView { channel: self.channel@, message: self.message@ }
    }
}

impl Publish {
    /// The command that sends `message` to `channel`.
    pub fn new(channel: &str, message: Vec<u8>) -> (r: Publish)
        ensures
            r@ == (PublishView { channel: channel@, message: message@ }),
    {
        Publish { channel: channel.to_owned(), message }
    }

    /// What the arguments `args` of a `PUBLISH` come to: the command and the
    /// arguments that it leaves.
    pub open spec fn spec_parse_frames(args: Seq<FrameView>) -> Result<
        (PublishView, Seq<FrameView>),
        ErrorKind,
    > {
        match take_string(args) {
            Ok((channel, after)) => match take_bytes(after) {
                Ok((message, rest)) => Ok((PublishView { channel, message }, rest)),
                Err(kind) => Err(kind),
            },
            Err(kind) => Err(kind),
        }
    }

    /// Reads the arguments of a `PUBLISH` from `parse`.
    pub fn parse_frames(parse: &mut Parse) -> (r: Result<Publish, ParseError>)
        ensures
            match Publish::spec_parse_frames(old(parse).remaining()) {
                Ok((view, rest)) => r matches Ok(cmd) && cmd@ == view && final(parse).remaining()
                    == rest,
                Err(kind) => r matches Err(e) && e.kind() == kind,
            },
    {
        let channel = match parse.next_string() {
            Ok(channel) => channel,
            Err(e) => {
                return Err(e);
            },
        };
        let message = match parse.next_bytes() {
            Ok(message) => message,
            Err(e) => {
                return Err(e);
            },
        };
        Ok(Publish { channel, message })
    }

    /// The answer to a `PUBLISH` that went to `subscribers` subscribers:
    /// their number.
    pub fn reply(subscribers: usize) -> (r: Frame)
        ensures
            r@ == FrameView::Integer(subscribers as u64),
    {
        Frame::Integer(subscribers as u64)
    }

    /// Sends the message to the channel in `db`, and gives the answer: the
    /// number of subscribers that the message went to, which is zero where
    /// nobody ever subscribed to the channel.
    pub fn apply(self, db: &Db) -> (r: Frame)
        ensures
            r@ is Integer,
            !db.channels().contains(self@.channel) ==> r@ == FrameView::Integer(0),
    {
        let subscribers = db.publish(self.channel.as_str(), self.message);
        Publish::reply(subscribers)
    }

    /// The frame that asks a server for this command.
    pub open spec fn spec_into_frame(view: PublishView) -> FrameView {
        FrameView::Array(
            seq![
                FrameView::Bulk(encode_utf8("publish"@)),
                FrameView::Bulk(encode_utf8(view.channel)),
                FrameView::Bulk(view.message),
            ],
        )
    }

    /// The frame that asks a server for this command.
    pub fn into_frame(self) -> (r: Frame)
        ensures
            r@ == Publish::spec_into_frame(self@),
    {
        let mut frame = Frame::array();
        frame.push_bulk(slice_to_vec("publish".as_bytes()));
        frame.push_bulk(self.channel.as_str().as_bytes_vec());
        frame.push_bulk(self.message);
        assert(frame@->Array_0 =~= Publish::spec_into_frame(self@)->Array_0);
        frame
    }
}

} // verus!
