//! `GET key`: the value stored under a key.

use crate::db::{Db, EntryView};
use crate::frame::{Frame, FrameView};
use crate::parse::{take_string, ErrorKind, Parse, ParseError};
use vstd::prelude::*;
use vstd::slice::slice_to_vec;
use vstd::string::StrSliceExecFns;
use vstd::utf8::encode_utf8;

verus! {

/// The command that asks for the value of a key.
#[derive(Debug)]
pub struct Get {
    /// The key to look up.
    pub key: String,
}

/// What a `Get` holds.
pub struct GetView {
    pub key: Seq<char>,
}

impl View for Get {
    type V = GetView;

    open spec fn view(&self) -> GetView {
        GetView { key: self.key@ }
    }
}

impl Get {
    /// The command that asks for the value of `key`.
    pub fn new(key: &str) -> (r: Get)
        ensures
            r@ == (GetView { key: key@ }),
    {
        Get { key: key.to_owned() }
    }

    /// What the arguments `args` of a `GET` come to: the command and the
    /// arguments that it leaves.
    pub open spec fn spec_parse_frames(args: Seq<FrameView>) -> Result<
        (GetView, Seq<FrameView>),
        ErrorKind,
    > {
        match take_string(args) {
            Ok((key, rest)) => Ok((GetView { key }, rest)),
            Err(kind) => Err(kind),
        }
    }

    /// Reads the arguments of a `GET` from `parse`.
    pub fn parse_frames(parse: &mut Parse) -> (r: Result<Get, ParseError>)
        ensures
            match Get::spec_parse_frames(old(parse).remaining()) {
                Ok((view, rest)) => r matches Ok(cmd) && cmd@ == view && final(parse).remaining()
                    == rest,
                Err(kind) => r matches Err(e) && e.kind() == kind,
            },
    {
        match parse.next_string() {
            Ok(key) => Ok(Get { key }),
            Err(e) => Err(e),
        }
    }

    /// The answer to this command from a store that holds `entries`: the
    /// value under the key, or null where there is none.
    pub open spec fn spec_apply(view: GetView, entries: Map<Seq<char>, EntryView>) -> FrameView {
        if entries.contains_key(view.key) {
            FrameView::Bulk(entries[view.key].data)
        } else {
            FrameView::Null
        }
    }

    /// The answer to this command from the store `db`.
    pub fn apply(self, db: &Db) -> (r: Frame)
        requires
            db.wf(),
        ensures
            r@ == Get::spec_apply(self@, db.entries()),
    {
        match db.get(self.key.as_str()) {
            Some(value) => Frame::Bulk(value),
            None => Frame::Null,
        }
    }

    /// The frame that asks a server for this command.
    pub open spec fn spec_into_frame(view: GetView) -> FrameView {
        FrameView::Array(
            seq![FrameView::Bulk(encode_utf8("get"@)), FrameView::Bulk(encode_utf8(view.key))],
        )
    }

    /// The frame that asks a server for this command.
    pub fn into_frame(self) -> (r: Frame)
        ensures
            r@ == Get::spec_into_frame(self@),
    {
        let mut frame = Frame::array();
        frame.push_bulk(slice_to_vec("get".as_bytes()));
        frame.push_bulk(self.key.as_str().as_bytes_vec());
        assert(frame@->Array_0 =~= Get::spec_into_frame(self@)->Array_0);
        frame
    }
}

} // verus!
