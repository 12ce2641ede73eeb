//! `SET key value [EX seconds | PX milliseconds]`: a value stored under a
//! key, for a time or for good.

use crate::db::{deadline_of, wakes, Db};
use crate::frame::{Frame, FrameView};
use crate::parse::{frame_string, take_bytes, take_int, take_string, ErrorKind, Parse, ParseError};
use crate::text::{text_eq, to_uppercase, uppercase};
use vstd::prelude::*;
use vstd::slice::slice_to_vec;
use vstd::string::StrSliceExecFns;
use vstd::utf8::encode_utf8;

verus! {

/// How long an entry lives, in the unit in which it was given.
#[derive(Clone, Copy, Debug, PartialEq, Eq, Structural)]
pub enum Expiry {
    /// So many seconds.
    Seconds(u64),
    /// So many milliseconds.
    Millis(u64),
}

impl Expiry {
    /// The time in milliseconds.
    pub open spec fn spec_as_millis(&self) -> nat {
        match self {
            Expiry::Seconds(secs) => (secs * 1000) as nat,
            Expiry::Millis(millis) => *millis as nat,
        }
    }

    /// The time in milliseconds.
    pub fn as_millis(&self) -> (r: u128)
        ensures
            r == self.spec_as_millis(),
    {
        match self {
            Expiry::Seconds(secs) => (*secs as u128) * 1000,
            Expiry::Millis(millis) => *millis as u128,
        }
    }
}

/// The command that stores a value under a key.
#[derive(Debug)]
pub struct SetCommand {
    /// The key to store under.
    pub key: String,
    /// The value to store.
    pub value: Vec<u8>,
    /// How long the entry lives; for good without it.
    pub expire: Option<Expiry>,
}

/// What a `SetCommand` holds.
pub struct SetCommandView {
    pub key: Seq<char>,
    pub value: Seq<u8>,
    pub expire: Option<Expiry>,
}

impl View for SetCommand {
    type V = SetCommandView;

    open spec fn view(&self) -> SetCommandView {
        SetCommandView { key: self.key@, value: self.value@, expire: self.expire }
    }
}

impl SetCommand {
    /// The command that stores `value` under `key`, for the time `expire` if
    /// one is given.
    pub fn new(key: &str, value: Vec<u8>, expire: Option<Expiry>) -> (r: SetCommand)
        ensures
            r@ == (SetCommandView { key: key@, value: value@, expire }),
    {
        SetCommand { key: key.to_owned(), value, expire }
    }

    /// What an option of `SET` comes to, given its keyword in upper case and
    /// the arguments after the keyword: `EX` and `PX` take a number.
    pub open spec fn spec_parse_expiry(keyword: Seq<char>, args: Seq<FrameView>) -> Result<
        (Expiry, Seq<FrameView>),
        ErrorKind,
    > {
        if keyword == "EX"@ {
            match take_int(args) {
                Ok((secs, rest)) => Ok((Expiry::Seconds(secs), rest)),
                Err(kind) => Err(kind),
            }
        } else if keyword == "PX"@ {
            match take_int(args) {
                Ok((millis, rest)) => Ok((Expiry::Millis(millis), rest)),
                Err(kind) => Err(kind),
            }
        } else {
            Err(ErrorKind::Protocol)
        }
    }

    /// Reads what follows the keyword of an option of `SET`; `keyword` is the
    /// keyword in upper case.
    pub fn parse_expiry(keyword: &str, parse: &mut Parse) -> (r: Result<Expiry, ParseError>)
        ensures
            match SetCommand::spec_parse_expiry(keyword@, old(parse).remaining()) {
                Ok((expiry, rest)) => {
                    &&& r == Ok::<Expiry, ParseError>(expiry)
                    &&& final(parse).remaining() == rest
                },
                Err(kind) => r matches Err(e) && e.kind() == kind,
            },
    {
        if text_eq(keyword, "EX") {
            match parse.next_int() {
                Ok(secs) => Ok(Expiry::Seconds(secs)),
                Err(e) => Err(e),
            }
        } else if text_eq(keyword, "PX") {
            match parse.next_int() {
                Ok(millis) => Ok(Expiry::Millis(millis)),
                Err(e) => Err(e),
            }
        } else {
            Err(ParseError::other("currently `SET` only supports the expiration option"))
        }
    }

    /// What the arguments `args` of a `SET` come to: the command and the
    /// arguments that it leaves. The keyword of an option counts in any case
    /// of its letters.
    pub open spec fn spec_parse_frames(args: Seq<FrameView>) -> Result<
        (SetCommandView, Seq<FrameView>),
        ErrorKind,
    > {
        match take_string(args) {
            Ok((key, after_key)) => match take_bytes(after_key) {
                Ok((value, after_value)) => if after_value.len() == 0 {
                    Ok((SetCommandView { key, value, expire: None }, after_value))
                } else {
                    match frame_string(after_value[0]) {
                        Some(word) => match SetCommand::spec_parse_expiry(
                            uppercase(word),
                            after_value.drop_first(),
                        ) {
                            Ok((expiry, rest)) => Ok(
                                (SetCommandView { key, value, expire: Some(expiry) }, rest),
                            ),
                            Err(kind) => Err(kind),
                        },
                        None => Err(ErrorKind::Protocol),
                    }
                },
                Err(kind) => Err(kind),
            },
            Err(kind) => Err(kind),
        }
    }

    /// Reads the arguments of a `SET` from `parse`.
    pub fn parse_frames(parse: &mut Parse) -> (r: Result<SetCommand, ParseError>)
        ensures
            match SetCommand::spec_parse_frames(old(parse).remaining()) {
                Ok((view, rest)) => r matches Ok(cmd) && cmd@ == view && final(parse).remaining()
                    == rest,
                Err(kind) => r matches Err(e) && e.kind() == kind,
            },
    {
        let key = match parse.next_string() {
            Ok(key) => key,
            Err(e) => {
                return Err(e);
            },
        };
        let value = match parse.next_bytes() {
            Ok(value) => value,
            Err(e) => {
                return Err(e);
            },
        };
        match parse.next_string() {
            Ok(word) => {
                let keyword = to_uppercase(word.as_str());
                match SetCommand::parse_expiry(keyword.as_str(), parse) {
                    Ok(expiry) => Ok(SetCommand { key, value, expire: Some(expiry) }),
                    Err(e) => Err(e),
                }
            },
            Err(ParseError::EndOfStream) => Ok(SetCommand { key, value, expire: None }),
            Err(e) => Err(e),
        }
    }

    /// Stores the value in `db` at the time `now`, and gives the answer,
    /// `OK`, and whether the task that purges is to be woken.
    pub fn apply(self, db: &mut Db, now: u64) -> (r: (Frame, bool))
        requires
            old(db).wf(),
            old(db).next_id() < u64::MAX,
        ensures
            final(db).wf(),
            old(db).spec_set(*final(db), self@.key, self@.value, self@.expire, now),
            r.0@ == FrameView::Simple("OK"@),
            r.1 == wakes(old(db).expirations(), deadline_of(self@.expire, now)),
    {
        let wake = db.set(self.key, self.value, self.expire, now);
        (Frame::Simple("OK".to_owned()), wake)
    }

    /// The frames that ask for an entry to live for `expire`: its time in
    /// milliseconds behind `px` where 64 bits hold that, else its seconds
    /// behind `ex`.
    pub open spec fn spec_expiry_frames(expire: Option<Expiry>) -> Seq<FrameView> {
        match expire {
            None => Seq::empty(),
            Some(Expiry::Millis(millis)) => seq![
                FrameView::Bulk(encode_utf8("px"@)),
                FrameView::Integer(millis),
            ],
            Some(Expiry::Seconds(secs)) => if secs * 1000 <= u64::MAX {
                seq![FrameView::Bulk(encode_utf8("px"@)), FrameView::Integer((secs * 1000) as u64)]
            } else {
                seq![FrameView::Bulk(encode_utf8("ex"@)), FrameView::Integer(secs)]
            },
        }
    }

    /// The frame that asks a server for this command.
    pub open spec fn spec_into_frame(view: SetCommandView) -> FrameView {
        FrameView::Array(
            seq![
                FrameView::Bulk(encode_utf8("set"@)),
                FrameView::Bulk(encode_utf8(view.key)),
                FrameView::Bulk(view.value),
            ] + SetCommand::spec_expiry_frames(view.expire),
        )
    }

    /// The frame that asks a server for this command.
    pub fn into_frame(self) -> (r: Frame)
        ensures
            r@ == SetCommand::spec_into_frame(self@),
    {
        let mut frame = Frame::array();
        frame.push_bulk(slice_to_vec("set".as_bytes()));
        frame.push_bulk(self.key.as_str().as_bytes_vec());
        frame.push_bulk(self.value);
        match self.expire {
            None => {},
            Some(Expiry::Millis(millis)) => {
                frame.push_bulk(slice_to_vec("px".as_bytes()));
                frame.push_int(millis);
            },
            Some(Expiry::Seconds(secs)) => {
                if secs <= u64::MAX / 1000 {
                    frame.push_bulk(slice_to_vec("px".as_bytes()));
                    frame.push_int(secs * 1000);
                } else {
                    frame.push_bulk(slice_to_vec("ex".as_bytes()));
                    frame.push_int(secs);
                }
            },
        }
        assert(frame@->Array_0 =~= SetCommand::spec_into_frame(self@)->Array_0);
        frame
    }
}

} // verus!
