//! The commands that a server understands, and how a frame is read as one.

pub mod get;
pub mod ping;
pub mod publish;
pub mod set;
pub mod subscribe;
pub mod unknown;

pub use get::Get;
pub use ping::Ping;
pub use publish::Publish;
pub use set::{Expiry, SetCommand};
pub use subscribe::{Subscribe, Unsubscribe};
pub use unknown::Unknown;

use crate::db::{deadline_of, wakes, Db};
use crate::frame::{Frame, FrameView};
use crate::parse::{take_string, ErrorKind, Parse, ParseError};
use crate::text::{lowercase, text_eq, to_lowercase};
use get::GetView;
use ping::PingView;
use publish::PublishView;
use set::SetCommandView;
use subscribe::ChannelsView;
use unknown::UnknownView;
use vstd::prelude::*;

verus! {

/// A command, as read from a frame.
#[derive(Debug)]
pub enum Command {
    Get(Get),
    Publish(Publish),
    SetCommand(SetCommand),
    Subscribe(Subscribe),
    Unsubscribe(Unsubscribe),
    Ping(Ping),
    Unknown(Unknown),
}

/// What a `Command` holds.
pub enum CommandView {
    Get(GetView),
    Publish(PublishView),
    SetCommand(SetCommandView),
    Subscribe(ChannelsView),
    Unsubscribe(ChannelsView),
    Ping(PingView),
    Unknown(UnknownView),
}

impl View for Command {
    type V = CommandView;

    open spec fn view(&self) -> CommandView {
        match self {
            Command::Get(cmd) => CommandView::Get(cmd@),
            Command::Publish(cmd) => CommandView::Publish(cmd@),
            Command::SetCommand(cmd) => CommandView::SetCommand(cmd@),
            Command::Subscribe(cmd) => CommandView::Subscribe(cmd@),
            Command::Unsubscribe(cmd) => CommandView::Unsubscribe(cmd@),
            Command::Ping(cmd) => CommandView::Ping(cmd@),
            Command::Unknown(cmd) => CommandView::Unknown(cmd@),
        }
    }
}

/// What carrying out a command comes to.
pub enum Applied {
    /// An answer to write to the client, and whether the task that purges is
    /// to be woken.
    Reply { frame: Frame, wake: bool },
    /// The connection turns to listening to channels: these, to begin with.
    Subscribe(Subscribe),
}

/// The text of the answer to an `UNSUBSCRIBE` from a connection that is not
/// listening to channels.
pub open spec fn unsupported_unsubscribe() -> Seq<char> {
    "ERR `Unsubscribe` is unsupported in this context"@
}

/// What the arguments of a command come to once it is asked that none is
/// left over.
pub open spec fn finished<T>(parsed: Result<(T, Seq<FrameView>), ErrorKind>) -> Result<
    T,
    ErrorKind,
> {
    match parsed {
        Ok((value, rest)) => if rest.len() == 0 {
            Ok(value)
        } else {
            Err(ErrorKind::Protocol)
        },
        Err(kind) => Err(kind),
    }
}

impl Command {
    /// The command that the name `name`, in lower case, and the arguments
    /// `args` stand for. A known command takes all the arguments; a name that
    /// is not known gives `Unknown`, whatever the arguments.
    pub open spec fn spec_from_name(name: Seq<char>, args: Seq<FrameView>) -> Result<
        CommandView,
        ErrorKind,
    > {
        if name == "get"@ {
            match finished(Get::spec_parse_frames(args)) {
                Ok(view) => Ok(CommandView::Get(view)),
                Err(kind) => Err(kind),
            }
        } else if name == "publish"@ {
            match finished(Publish::spec_parse_frames(args)) {
                Ok(view) => Ok(CommandView::Publish(view)),
                Err(kind) => Err(kind),
            }
        } else if name == "set"@ {
            match finished(SetCommand::spec_parse_frames(args)) {
                Ok(view) => Ok(CommandView::SetCommand(view)),
                Err(kind) => Err(kind),
            }
        } else if name == "subscribe"@ {
            match finished(Subscribe::spec_parse_frames(args)) {
                Ok(view) => Ok(CommandView::Subscribe(view)),
                Err(kind) => Err(kind),
            }
        } else if name == "unsubscribe"@ {
            match finished(Unsubscribe::spec_parse_frames(args)) {
                Ok(view) => Ok(CommandView::Unsubscribe(view)),
                Err(kind) => Err(kind),
            }
        } else if name == "ping"@ {
            match finished(Ping::spec_parse_frames(args)) {
                Ok(view) => Ok(CommandView::Ping(view)),
                Err(kind) => Err(kind),
            }
        } else {
            Ok(CommandView::Unknown(UnknownView { command_name: name }))
        }
    }

    /// The command that `frame` stands for: an array whose first item is the
    /// name of the command, in any case of its letters, and whose other items
    /// are its arguments.
    pub open spec fn spec_from_frame(frame: FrameView) -> Result<CommandView, ErrorKind> {
        match frame {
            FrameView::Array(items) => match take_string(items) {
                Ok((name, args)) => Command::spec_from_name(lowercase(name), args),
                Err(kind) => Err(kind),
            },
            _ => Err(ErrorKind::Protocol),
        }
    }

    /// Reads the command of the name `name`, which is in lower case, with
    /// its arguments from `parse`.
    pub fn from_name(name: &str, parse: &mut Parse) -> (r: Result<Command, ParseError>)
        ensures
            match Command::spec_from_name(name@, old(parse).remaining()) {
                Ok(view) => r matches Ok(cmd) && cmd@ == view,
                Err(kind) => r matches Err(e) && e.kind() == kind,
            },
    {
        let command = if text_eq(name, "get") {
            match Get::parse_frames(parse) {
                Ok(cmd) => Command::Get(cmd),
                Err(e) => {
                    return Err(e);
                },
            }
        } else if text_eq(name, "publish") {
            match Publish::parse_frames(parse) {
                Ok(cmd) => Command::Publish(cmd),
                Err(e) => {
                    return Err(e);
                },
            }
        } else if text_eq(name, "set") {
            match SetCommand::parse_frames(parse) {
                Ok(cmd) => Command::SetCommand(cmd),
                Err(e) => {
                    return Err(e);
                },
            }
        } else if text_eq(name, "subscribe") {
            match Subscribe::parse_frames(parse) {
                Ok(cmd) => Command::Subscribe(cmd),
                Err(e) => {
                    return Err(e);
                },
            }
        } else if text_eq(name, "unsubscribe") {
            match Unsubscribe::parse_frames(parse) {
                Ok(cmd) => Command::Unsubscribe(cmd),
                Err(e) => {
                    return Err(e);
                },
            }
        } else if text_eq(name, "ping") {
            match Ping::parse_frames(parse) {
                Ok(cmd) => Command::Ping(cmd),
                Err(e) => {
                    return Err(e);
                },
            }
        } else {
            return Ok(Command::Unknown(Unknown::new(name)));
        };
        match parse.finish() {
            Ok(()) => Ok(command),
            Err(e) => Err(e),
        }
    }

    /// Reads `frame` as a command.
    pub fn from_frame(frame: Frame) -> (r: Result<Command, ParseError>)
        ensures
            match Command::spec_from_frame(frame@) {
                Ok(view) => r matches Ok(cmd) && cmd@ == view,
                Err(kind) => r matches Err(e) && e.kind() == kind,
            },
    {
        let mut parse = match Parse::new(frame) {
            Ok(parse) => parse,
            Err(e) => {
                return Err(e);
            },
        };
        let name = match parse.next_string() {
            Ok(name) => name,
            Err(e) => {
                return Err(e);
            },
        };
        let command_name = to_lowercase(name.as_str());
        Command::from_name(command_name.as_str(), &mut parse)
    }

    /// Carries the command out on the store `db` at the time `now`.
    ///
    /// `GET`, `PUBLISH`, `PING` and a command that is not known leave the
    /// store as it was and give their answer; `SET` stores its value;
    /// `SUBSCRIBE` hands the connection over to listening, and `UNSUBSCRIBE`
    /// has no place outside of that and is answered with an error.
    pub fn apply(self, db: &mut Db, now: u64) -> (r: Applied)
        requires
            old(db).wf(),
            self@ is SetCommand ==> old(db).next_id() < u64::MAX,
        ensures
            final(db).wf(),
            match self@ {
                CommandView::Get(view) => {
                    &&& r matches Applied::Reply { frame, wake }
                    &&& frame@ == Get::spec_apply(view, old(db).entries())
                    &&& !wake
                    &&& old(db).same_as(*final(db))
                },
                CommandView::Publish(view) => {
                    &&& r matches Applied::Reply { frame, wake }
                    &&& frame@ is Integer
                    &&& !old(db).channels().contains(view.channel) ==> frame@
                        == FrameView::Integer(0)
                    &&& !wake
                    &&& old(db).same_as(*final(db))
                },
                CommandView::SetCommand(view) => {
                    &&& r matches Applied::Reply { frame, wake }
                    &&& frame@ == FrameView::Simple("OK"@)
                    &&& wake == wakes(old(db).expirations(), deadline_of(view.expire, now))
                    &&& old(db).spec_set(*final(db), view.key, view.value, view.expire, now)
                },
                CommandView::Subscribe(view) => {
                    &&& r matches Applied::Subscribe(cmd)
                    &&& cmd@ == view
                    &&& old(db).same_as(*final(db))
                },
                CommandView::Unsubscribe(_) => {
                    &&& r matches Applied::Reply { frame, wake }
                    &&& frame@ == FrameView::Error(unsupported_unsubscribe())
                    &&& !wake
                    &&& old(db).same_as(*final(db))
                },
                CommandView::Ping(view) => {
                    &&& r matches Applied::Reply { frame, wake }
                    &&& frame@ == Ping::spec_apply(view)
                    &&& !wake
                    &&& old(db).same_as(*final(db))
                },
                CommandView::Unknown(view) => {
                    &&& r matches Applied::Reply { frame, wake }
                    &&& frame@ == Unknown::spec_apply(view)
                    &&& !wake
                    &&& old(db).same_as(*final(db))
                },
            },
    {
        match self {
            Command::Get(cmd) => Applied::Reply { frame: cmd.apply(db), wake: false },
            Command::Publish(cmd) => Applied::Reply { frame: cmd.apply(db), wake: false },
            Command::SetCommand(cmd) => {
                let (frame, wake) = cmd.apply(db, now);
                Applied::Reply { frame, wake }
            },
            Command::Subscribe(cmd) => Applied::Subscribe(cmd),
            Command::Unsubscribe(_) => Applied::Reply {
                frame: Frame::Error("ERR `Unsubscribe` is unsupported in this context".to_owned()),
                wake: false,
            },
            Command::Ping(cmd) => Applied::Reply { frame: cmd.apply(), wake: false },
            Command::Unknown(cmd) => Applied::Reply { frame: cmd.apply(), wake: false },
        }
    }

    /// The name of the command `view`, as the server reports it.
    pub open spec fn spec_name(view: CommandView) -> Seq<char> {
        match view {
            CommandView::Get(_) => "get"@,
            CommandView::Publish(_) => "pub"@,
            CommandView::SetCommand(_) => "set"@,
            CommandView::Subscribe(_) => "subscribe"@,
            CommandView::Unsubscribe(_) => "unsubscribe"@,
            CommandView::Ping(_) => "ping"@,
            CommandView::Unknown(cmd) => cmd.command_name,
        }
    }

    /// The name of this command.
    pub fn get_name(&self) -> (name: &str)
        ensures
            name@ == Command::spec_name(self@),
    {
        match self {
            Command::Get(_) => "get",
            Command::Publish(_) => "pub",
            Command::SetCommand(_) => "set",
            Command::Subscribe(_) => "subscribe",
            Command::Unsubscribe(_) => "unsubscribe",
            Command::Ping(_) => "ping",
            Command::Unknown(cmd) => cmd.get_name(),
        }
    }
}

} // verus!
