//! `SUBSCRIBE` and `UNSUBSCRIBE`: the channels that a connection listens to.

use crate::cmd::{Command, CommandView, Unknown};
use crate::db::Db;
use crate::frame::{frames_view, Frame, FrameView};
use crate::parse::{frame_string, ErrorKind, Parse, ParseError};
use crate::pubsub::{
    into_stream, subscribed, subscriptions_insert, subscriptions_keys, subscriptions_len,
    subscriptions_remove, without, Subscriptions,
};
use crate::text::texts;
use vstd::prelude::*;
use vstd::slice::slice_to_vec;
use vstd::string::StrSliceExecFns;
use vstd::utf8::encode_utf8;

verus! {

/// The command that makes a connection listen to channels.
#[derive(Debug)]
pub struct Subscribe {
    /// The names of the channels.
    pub channels: Vec<String>,
}

/// The command that makes a connection stop listening to channels: to the
/// ones it names, or to all of them where it names none.
#[derive(Clone, Debug)]
pub struct Unsubscribe {
    /// The names of the channels.
    pub channels: Vec<String>,
}

/// What a `Subscribe` or an `Unsubscribe` holds.
pub struct ChannelsView {
    pub channels: Seq<Seq<char>>,
}

impl View for Subscribe {
    type V = ChannelsView;

    open spec fn view(&self) -> ChannelsView {
        ChannelsView { channels: texts(self.channels@) }
    }
}

impl View for Unsubscribe {
    type V = ChannelsView;

    open spec fn view(&self) -> ChannelsView {
        ChannelsView { channels: texts(self.channels@) }
    }
}

/// Whether every frame of `args` stands for a text.
pub open spec fn all_strings(args: Seq<FrameView>) -> bool {
    forall|i: int| 0 <= i < args.len() ==> frame_string(#[trigger] args[i]) is Some
}

/// The texts that the frames of `args` stand for.
pub open spec fn strings_of(args: Seq<FrameView>) -> Seq<Seq<char>> {
    Seq::new(args.len(), |i: int| frame_string(args[i])->0)
}

/// A copy of `names`.
fn copy_names(names: &[String]) -> (r: Vec<String>)
    ensures
        texts(r@) == texts(names@),
{
    let mut out: Vec<String> = Vec::new();
    let mut i: usize = 0;
    while i < names.len()
        invariant
            i <= names.len(),
            out@.len() == i,
            forall|j: int| 0 <= j < i ==> out@[j]@ == names@[j]@,
        decreases names.len() - i,
    {
        out.push(names[i].clone());
        i += 1;
    }
    assert(texts(out@) =~= texts(names@));
    out
}

/// Reads every frame that is left in `parse` as the name of a channel, and
/// appends the names to `channels`.
fn read_channels(parse: &mut Parse, channels: &mut Vec<String>) -> (r: Result<(), ParseError>)
    ensures
        all_strings(old(parse).remaining()) ==> {
            &&& r is Ok
            &&& final(parse).remaining().len() == 0
            &&& texts(final(channels)@) == texts(old(channels)@) + strings_of(
                old(parse).remaining(),
            )
        },
        !all_strings(old(parse).remaining()) ==> (r matches Err(e) && e.kind()
            == ErrorKind::Protocol),
{
    let ghost args = parse.remaining();
    let ghost mut read: int = 0;
    loop
        invariant
            0 <= read <= args.len(),
            args == old(parse).remaining(),
            parse.remaining() == args.subrange(read, args.len() as int),
            forall|j: int| 0 <= j < read ==> frame_string(#[trigger] args[j]) is Some,
            texts(channels@) == texts(old(channels)@) + strings_of(args.subrange(0, read)),
        decreases args.len() - read,
    {
        let ghost before = channels@;
        match parse.next_string() {
            Ok(name) => {
                channels.push(name);
                proof {
                    assert(args.subrange(read, args.len() as int)[0] == args[read]);
                    assert(args.subrange(read, args.len() as int).drop_first() =~= args.subrange(
                        read + 1,
                        args.len() as int,
                    ));
                    assert(texts(channels@) =~= texts(old(channels)@) + strings_of(
                        args.subrange(0, read + 1),
                    )) by {
                        assert(texts(channels@) =~= texts(before).push(name@));
                        assert(strings_of(args.subrange(0, read + 1)) =~= strings_of(
                            args.subrange(0, read),
                        ).push(frame_string(args[read])->0));
                    }
                    read = read + 1;
                }
            },
            Err(ParseError::EndOfStream) => {
                proof {
                    assert(args.subrange(0, read) =~= args);
                }
                return Ok(());
            },
            Err(e) => {
                proof {
                    assert(args.subrange(read, args.len() as int)[0] == args[read]);
                }
                return Err(e);
            },
        }
    }
}

/// The frame that asks for `verb` on the channels `channels`: the verb and
/// then each name, all as bulk strings.
pub open spec fn spec_channels_frame(verb: Seq<char>, channels: Seq<Seq<char>>) -> FrameView {
    FrameView::Array(
        seq![FrameView::Bulk(encode_utf8(verb))] + Seq::new(
            channels.len(),
            |i: int| FrameView::Bulk(encode_utf8(channels[i])),
        ),
    )
}

/// The frame that asks for `verb` on the channels `channels`.
fn channels_frame(verb: &str, channels: &Vec<String>) -> (r: Frame)
    ensures
        r@ == spec_channels_frame(verb@, texts(channels@)),
{
    let mut frame = Frame::array();
    frame.push_bulk(verb.as_bytes_vec());
    let mut i: usize = 0;
    while i < channels.len()
        invariant
            i <= channels.len(),
            frame@ is Array,
            frame@->Array_0 == seq![FrameView::Bulk(encode_utf8(verb@))] + Seq::new(
                i as nat,
                |j: int| FrameView::Bulk(encode_utf8(texts(channels@)[j])),
            ),
        decreases channels.len() - i,
    {
        let ghost before = frame@->Array_0;
        frame.push_bulk(channels[i].as_str().as_bytes_vec());
        i += 1;
        assert(frame@->Array_0 =~= seq![FrameView::Bulk(encode_utf8(verb@))] + Seq::new(
            i as nat,
            |j: int| FrameView::Bulk(encode_utf8(texts(channels@)[j])),
        ));
    }
    assert(frame@->Array_0 =~= spec_channels_frame(verb@, texts(channels@))->Array_0);
    frame
}

impl Subscribe {
    /// The command that makes a connection listen to `channels`.
    pub fn new(channels: &[String]) -> (r: Subscribe)
        ensures
            r@.channels == texts(channels@),
    {
        Subscribe { channels: copy_names(channels) }
    }

    /// What the arguments `args` of a `SUBSCRIBE` come to: the command, which
    /// takes all of them and needs one at least.
    pub open spec fn spec_parse_frames(args: Seq<FrameView>) -> Result<
        (ChannelsView, Seq<FrameView>),
        ErrorKind,
    > {
        if args.len() == 0 {
            Err(ErrorKind::EndOfStream)
        } else if all_strings(args) {
            Ok((ChannelsView { channels: strings_of(args) }, Seq::empty()))
        } else {
            Err(ErrorKind::Protocol)
        }
    }

    /// Reads the arguments of a `SUBSCRIBE` from `parse`.
    pub fn parse_frames(parse: &mut Parse) -> (r: Result<Subscribe, ParseError>)
        ensures
            match Subscribe::spec_parse_frames(old(parse).remaining()) {
                Ok((view, rest)) => r matches Ok(cmd) && cmd@ == view && final(parse).remaining()
                    == rest,
                Err(kind) => r matches Err(e) && e.kind() == kind,
            },
    {
        let ghost args = parse.remaining();
        let first = match parse.next_string() {
            Ok(first) => first,
            Err(e) => {
                return Err(e);
            },
        };
        let mut channels: Vec<String> = Vec::new();
        channels.push(first);
        let ghost rest = parse.remaining();
        proof {
            assert(all_strings(rest) <==> all_strings(args)) by {
                if all_strings(args) {
                    assert forall|i: int| 0 <= i < rest.len() implies frame_string(
                        #[trigger] rest[i],
                    ) is Some by {
                        assert(rest[i] == args[i + 1]);
                    }
                }
                if all_strings(rest) {
                    assert forall|i: int| 0 <= i < args.len() implies frame_string(
                        #[trigger] args[i],
                    ) is Some by {
                        if i > 0 {
                            assert(args[i] == rest[i - 1]);
                        }
                    }
                }
            }
        }
        match read_channels(parse, &mut channels) {
            Ok(()) => {
                proof {
                    assert(texts(channels@) =~= strings_of(args)) by {
                        assert(texts(channels@) =~= seq![frame_string(args[0])->0] + strings_of(
                            rest,
                        ));
                        assert forall|i: int| 0 <= i < rest.len() implies strings_of(rest)[i]
                            == strings_of(args)[i + 1] by {
                            assert(rest[i] == args[i + 1]);
                        }
                    }
                    assert(parse.remaining() =~= Seq::<FrameView>::empty());
                }
                Ok(Subscribe { channels })
            },
            Err(e) => Err(e),
        }
    }

    /// The frame that asks a server for this command.
    pub open spec fn spec_into_frame(view: ChannelsView) -> FrameView {
        spec_channels_frame("subscribe"@, view.channels)
    }

    /// The frame that asks a server for this command.
    pub fn into_frame(self) -> (r: Frame)
        ensures
            r@ == Subscribe::spec_into_frame(self@),
    {
        channels_frame("subscribe", &self.channels)
    }
}

impl Unsubscribe {
    /// The command that makes a connection stop listening to `channels`.
    pub fn new(channels: &[String]) -> (r: Unsubscribe)
        ensures
            r@.channels == texts(channels@),
    {
        Unsubscribe { channels: copy_names(channels) }
    }

    /// What the arguments `args` of an `UNSUBSCRIBE` come to: the command,
    /// which takes all of them and needs none.
    pub open spec fn spec_parse_frames(args: Seq<FrameView>) -> Result<
        (ChannelsView, Seq<FrameView>),
        ErrorKind,
    > {
        if all_strings(args) {
            Ok((ChannelsView { channels: strings_of(args) }, Seq::empty()))
        } else {
            Err(ErrorKind::Protocol)
        }
    }

    /// Reads the arguments of an `UNSUBSCRIBE` from `parse`.
    pub fn parse_frames(parse: &mut Parse) -> (r: Result<Unsubscribe, ParseError>)
        ensures
            match Unsubscribe::spec_parse_frames(old(parse).remaining()) {
                Ok((view, rest)) => r matches Ok(cmd) && cmd@ == view && final(parse).remaining()
                    == rest,
                Err(kind) => r matches Err(e) && e.kind() == kind,
            },
    {
        let mut channels: Vec<String> = Vec::new();
        match read_channels(parse, &mut channels) {
            Ok(()) => {
                proof {
                    assert(texts(channels@) =~= strings_of(old(parse).remaining()));
                    assert(parse.remaining() =~= Seq::<FrameView>::empty());
                }
                Ok(Unsubscribe { channels })
            },
            Err(e) => Err(e),
        }
    }

    /// The frame that asks a server for this command.
    pub open spec fn spec_into_frame(view: ChannelsView) -> FrameView {
        spec_channels_frame("unsubscribe"@, view.channels)
    }

    /// The frame that asks a server for this command.
    pub fn into_frame(self) -> (r: Frame)
        ensures
            r@ == Unsubscribe::spec_into_frame(self@),
    {
        channels_frame("unsubscribe", &self.channels)
    }
}

/// The frame that tells a client of a change in what it listens to: the
/// word for the change, the name of the channel, and the number of channels
/// that the connection listens to after the change.
pub open spec fn spec_ack(word: Seq<char>, channel: Seq<char>, count: nat) -> FrameView {
    FrameView::Array(
        seq![
            FrameView::Bulk(encode_utf8(word)),
            FrameView::Bulk(encode_utf8(channel)),
            FrameView::Integer(count as u64),
        ],
    )
}

/// The frame that hands a client the message `msg` of the channel `channel`.
pub open spec fn spec_message(channel: Seq<char>, msg: Seq<u8>) -> FrameView {
    FrameView::Array(
        seq![
            FrameView::Bulk(encode_utf8("message"@)),
            FrameView::Bulk(encode_utf8(channel)),
            FrameView::Bulk(msg),
        ],
    )
}

/// The frame that tells a client that it now listens to `channel_name`, as
/// one of `num_subs` channels.
pub fn make_subscribe_frame(channel_name: String, num_subs: usize) -> (r: Frame)
    ensures
        r@ == spec_ack("subscribe"@, channel_name@, num_subs as nat),
{
    let mut response = Frame::array();
    response.push_bulk(slice_to_vec("subscribe".as_bytes()));
    response.push_bulk(channel_name.as_str().as_bytes_vec());
    response.push_int(num_subs as u64);
    assert(response@->Array_0 =~= spec_ack(
        "subscribe"@,
        channel_name@,
        num_subs as nat,
    )->Array_0);
    response
}

/// The frame that tells a client that it no longer listens to
/// `channel_name`, and still listens to `num_subs` channels.
pub fn make_unsubscribe_frame(channel_name: String, num_subs: usize) -> (r: Frame)
    ensures
        r@ == spec_ack("unsubscribe"@, channel_name@, num_subs as nat),
{
    let mut response = Frame::array();
    response.push_bulk(slice_to_vec("unsubscribe".as_bytes()));
    response.push_bulk(channel_name.as_str().as_bytes_vec());
    response.push_int(num_subs as u64);
    assert(response@->Array_0 =~= spec_ack(
        "unsubscribe"@,
        channel_name@,
        num_subs as nat,
    )->Array_0);
    response
}

/// The frame that hands a client the message `msg` of the channel
/// `channel_name`.
pub fn make_message_frame(channel_name: String, msg: Vec<u8>) -> (r: Frame)
    ensures
        r@ == spec_message(channel_name@, msg@),
{
    let mut response = Frame::array();
    response.push_bulk(slice_to_vec("message".as_bytes()));
    response.push_bulk(channel_name.as_str().as_bytes_vec());
    response.push_bulk(msg);
    assert(response@->Array_0 =~= spec_message(channel_name@, msg@)->Array_0);
    response
}

/// Makes the connection listen to the channel `channel_name` of the store
/// `db`, and gives the frame that tells the client so, with the number of
/// channels that the connection then listens to.
pub fn subscribe_to_channel(
    channel_name: String,
    subscriptions: &mut Subscriptions,
    db: &mut Db,
) -> (r: Frame)
    requires
        old(db).wf(),
    ensures
        final(db).wf(),
        final(db).channels() == old(db).channels().insert(channel_name@),
        final(db).entries() == old(db).entries(),
        final(db).expirations() == old(db).expirations(),
        final(db).next_id() == old(db).next_id(),
        final(db).spec_is_shutdown() == old(db).spec_is_shutdown(),
        subscribed(*final(subscriptions)) == without(
            subscribed(*old(subscriptions)),
            channel_name@,
        ).push(channel_name@),
        r@ == spec_ack("subscribe"@, channel_name@, subscribed(*final(subscriptions)).len()),
{
    let receiver = db.subscribe(channel_name.clone());
    subscriptions_insert(subscriptions, channel_name.clone(), into_stream(receiver));
    make_subscribe_frame(channel_name, subscriptions_len(subscriptions))
}

/// The channels that a connection listens to after it stopped listening to
/// the channels `names`, one after the other.
pub open spec fn after_unsubscribe(listening: Seq<Seq<char>>, names: Seq<Seq<char>>) -> Seq<
    Seq<char>,
>
    decreases names.len(),
{
    if names.len() == 0 {
        listening
    } else {
        after_unsubscribe(without(listening, names[0]), names.drop_first())
    }
}

/// The frames that tell a client that it stopped listening to the channels
/// `names`, one after the other: one frame for each name, with the number of
/// channels that are left at that point.
pub open spec fn unsubscribe_acks(listening: Seq<Seq<char>>, names: Seq<Seq<char>>) -> Seq<
    FrameView,
>
    decreases names.len(),
{
    if names.len() == 0 {
        Seq::empty()
    } else {
        seq![spec_ack("unsubscribe"@, names[0], without(listening, names[0]).len())]
            + unsubscribe_acks(without(listening, names[0]), names.drop_first())
    }
}

/// The channels that an `UNSUBSCRIBE` of the channels `named` is about, for a
/// connection that listens to `listening`: the ones it names, or all where
/// it names none.
pub open spec fn unsubscribe_targets(listening: Seq<Seq<char>>, named: Seq<Seq<char>>) -> Seq<
    Seq<char>,
> {
    if named.len() == 0 {
        listening
    } else {
        named
    }
}

/// Makes the connection stop listening to the channels `names`, one after
/// the other, and gives the frames that tell the client so.
fn unsubscribe_from(names: Vec<String>, subscriptions: &mut Subscriptions) -> (r: Vec<Frame>)
    ensures
        subscribed(*final(subscriptions)) == after_unsubscribe(
            subscribed(*old(subscriptions)),
            texts(names@),
        ),
        frames_view(r@) == unsubscribe_acks(subscribed(*old(subscriptions)), texts(names@)),
{
    let mut out: Vec<Frame> = Vec::new();
    let ghost all = texts(names@);
    let mut i: usize = 0;
    proof {
        assert(all.subrange(0, all.len() as int) =~= all);
        assert(frames_view(out@) + unsubscribe_acks(subscribed(*subscriptions), all)
            =~= unsubscribe_acks(subscribed(*subscriptions), all));
    }
    while i < names.len()
        invariant
            i <= names.len(),
            all == texts(names@),
            after_unsubscribe(subscribed(*old(subscriptions)), all) == after_unsubscribe(
                subscribed(*subscriptions),
                all.subrange(i as int, all.len() as int),
            ),
            unsubscribe_acks(subscribed(*old(subscriptions)), all) == frames_view(out@)
                + unsubscribe_acks(
                subscribed(*subscriptions),
                all.subrange(i as int, all.len() as int),
            ),
        decreases names.len() - i,
    {
        let ghost before = subscribed(*subscriptions);
        let ghost rest = all.subrange(i as int, all.len() as int);
        let ghost shown = frames_view(out@);
        let name = names[i].clone();
        subscriptions_remove(subscriptions, name.as_str());
        let ack = make_unsubscribe_frame(name, subscriptions_len(subscriptions));
        out.push(ack);
        i += 1;
        proof {
            assert(rest[0] == all[i - 1]);
            assert(rest.drop_first() =~= all.subrange(i as int, all.len() as int));
            assert(frames_view(out@) =~= shown.push(ack@));
            assert(shown + (seq![ack@] + unsubscribe_acks(
                subscribed(*subscriptions),
                rest.drop_first(),
            )) =~= shown.push(ack@) + unsubscribe_acks(
                subscribed(*subscriptions),
                rest.drop_first(),
            ));
        }
    }
    proof {
        assert(all.subrange(i as int, all.len() as int) =~= Seq::<Seq<char>>::empty());
        assert(frames_view(out@) + Seq::<FrameView>::empty() =~= frames_view(out@));
    }
    out
}

/// What a connection that listens to channels does with a command from its
/// client: `SUBSCRIBE` adds its channels to `subscribe_to`, for the
/// connection to subscribe to before it waits again; `UNSUBSCRIBE` stops the
/// listening to the channels it names, or to all where it names none; any
/// other command is answered as one that is not known. Gives the frames to
/// write to the client, in order.
pub fn handle_command(
    frame: Frame,
    subscribe_to: &mut Vec<String>,
    subscriptions: &mut Subscriptions,
) -> (r: Result<Vec<Frame>, ParseError>)
    ensures
        match Command::spec_from_frame(frame@) {
            Err(kind) => {
                &&& r matches Err(e)
                &&& e.kind() == kind
                &&& texts(final(subscribe_to)@) == texts(old(subscribe_to)@)
                &&& subscribed(*final(subscriptions)) == subscribed(*old(subscriptions))
            },
            Ok(CommandView::Subscribe(view)) => {
                &&& r matches Ok(frames)
                &&& frames@.len() == 0
                &&& texts(final(subscribe_to)@) == texts(old(subscribe_to)@) + view.channels
                &&& subscribed(*final(subscriptions)) == subscribed(*old(subscriptions))
            },
            Ok(CommandView::Unsubscribe(view)) => {
                let names = unsubscribe_targets(subscribed(*old(subscriptions)), view.channels);
                &&& r matches Ok(frames)
                &&& frames_view(frames@) == unsubscribe_acks(
                    subscribed(*old(subscriptions)),
                    names,
                )
                &&& texts(final(subscribe_to)@) == texts(old(subscribe_to)@)
                &&& subscribed(*final(subscriptions)) == after_unsubscribe(
                    subscribed(*old(subscriptions)),
                    names,
                )
            },
            Ok(other) => {
                &&& r matches Ok(frames)
                &&& frames_view(frames@) == seq![
                    Unknown::spec_apply(
                        crate::cmd::unknown::UnknownView { command_name: Command::spec_name(other) },
                    ),
                ]
                &&& texts(final(subscribe_to)@) == texts(old(subscribe_to)@)
                &&& subscribed(*final(subscriptions)) == subscribed(*old(subscriptions))
            },
        },
{
    let command = match Command::from_frame(frame) {
        Ok(command) => command,
        Err(e) => {
            return Err(e);
        },
    };
    match command {
        Command::Subscribe(subscribe) => {
            let mut channels = subscribe.channels;
            let ghost added = texts(channels@);
            let ghost before = texts(subscribe_to@);
            subscribe_to.append(&mut channels);
            assert(texts(subscribe_to@) =~= before + added);
            Ok(Vec::new())
        },
        Command::Unsubscribe(unsubscribe) => {
            let names = if unsubscribe.channels.len() == 0 {
                subscriptions_keys(subscriptions)
            } else {
                unsubscribe.channels
            };
            Ok(unsubscribe_from(names, subscriptions))
        },
        command => {
            let cmd = Unknown::new(command.get_name());
            let mut out: Vec<Frame> = Vec::new();
            out.push(cmd.apply());
            assert(frames_view(out@) =~= seq![out@[0]@]);
            Ok(out)
        },
    }
}

/// The channels that a connection listens to after it began to listen to
/// the channels `names`, one after the other.
pub open spec fn after_subscribe(listening: Seq<Seq<char>>, names: Seq<Seq<char>>) -> Seq<
    Seq<char>,
>
    decreases names.len(),
{
    if names.len() == 0 {
        listening
    } else {
        after_subscribe(without(listening, names[0]).push(names[0]), names.drop_first())
    }
}

/// The frames that tell a client that it began to listen to the channels
/// `names`, one after the other: one frame for each name, with the number of
/// channels that the connection listens to at that point.
pub open spec fn subscribe_acks(listening: Seq<Seq<char>>, names: Seq<Seq<char>>) -> Seq<
    FrameView,
>
    decreases names.len(),
{
    if names.len() == 0 {
        Seq::empty()
    } else {
        seq![
            spec_ack(
                "subscribe"@,
                names[0],
                without(listening, names[0]).push(names[0]).len(),
            ),
        ] + subscribe_acks(without(listening, names[0]).push(names[0]), names.drop_first())
    }
}

/// Makes the connection listen to every channel of `subscribe_to`, which is
/// then empty, and gives the frames that tell the client so, in order.
pub fn subscribe_pending(
    subscribe_to: &mut Vec<String>,
    subscriptions: &mut Subscriptions,
    db: &mut Db,
) -> (r: Vec<Frame>)
    requires
        old(db).wf(),
    ensures
        final(db).wf(),
        final(db).channels() == old(db).channels().union(texts(old(subscribe_to)@).to_set()),
        final(db).entries() == old(db).entries(),
        final(db).expirations() == old(db).expirations(),
        final(db).next_id() == old(db).next_id(),
        final(db).spec_is_shutdown() == old(db).spec_is_shutdown(),
        final(subscribe_to)@.len() == 0,
        subscribed(*final(subscriptions)) == after_subscribe(
            subscribed(*old(subscriptions)),
            texts(old(subscribe_to)@),
        ),
        frames_view(r@) == subscribe_acks(
            subscribed(*old(subscriptions)),
            texts(old(subscribe_to)@),
        ),
{
    let mut out: Vec<Frame> = Vec::new();
    let ghost all = texts(subscribe_to@);
    let mut i: usize = 0;
    proof {
        assert(all.subrange(0, all.len() as int) =~= all);
        assert(all.subrange(0, 0) =~= Seq::<Seq<char>>::empty());
        assert(db.channels().union(Seq::<Seq<char>>::empty().to_set()) =~= db.channels());
        assert(frames_view(out@) + subscribe_acks(subscribed(*subscriptions), all)
            =~= subscribe_acks(subscribed(*subscriptions), all));
    }
    while i < subscribe_to.len()
        invariant
            i <= subscribe_to.len(),
            subscribe_to@ == old(subscribe_to)@,
            all == texts(subscribe_to@),
            db.wf(),
            db.channels() == old(db).channels().union(all.subrange(0, i as int).to_set()),
            db.entries() == old(db).entries(),
            db.expirations() == old(db).expirations(),
            db.next_id() == old(db).next_id(),
            db.spec_is_shutdown() == old(db).spec_is_shutdown(),
            after_subscribe(subscribed(*old(subscriptions)), all) == after_subscribe(
                subscribed(*subscriptions),
                all.subrange(i as int, all.len() as int),
            ),
            subscribe_acks(subscribed(*old(subscriptions)), all) == frames_view(out@)
                + subscribe_acks(
                subscribed(*subscriptions),
                all.subrange(i as int, all.len() as int),
            ),
        decreases subscribe_to.len() - i,
    {
        let ghost rest = all.subrange(i as int, all.len() as int);
        let ghost shown = frames_view(out@);
        let ghost known = db.channels();
        let name = subscribe_to[i].clone();
        let ack = subscribe_to_channel(name, subscriptions, db);
        out.push(ack);
        i += 1;
        proof {
            assert(rest[0] == all[i - 1]);
            assert(rest.drop_first() =~= all.subrange(i as int, all.len() as int));
            assert(frames_view(out@) =~= shown.push(ack@));
            assert(shown + (seq![ack@] + subscribe_acks(
                subscribed(*subscriptions),
                rest.drop_first(),
            )) =~= shown.push(ack@) + subscribe_acks(
                subscribed(*subscriptions),
                rest.drop_first(),
            ));
            assert(all.subrange(0, i as int) =~= all.subrange(0, i - 1).push(all[i - 1]));
            assert(all.subrange(0, i as int).to_set() =~= all.subrange(0, i - 1).to_set().insert(
                all[i - 1],
            )) by {
                let shorter = all.subrange(0, i - 1);
                let longer = all.subrange(0, i as int);
                assert forall|x: Seq<char>| longer.to_set().contains(x) == shorter.to_set().insert(
                    all[i - 1],
                ).contains(x) by {
                    if longer.contains(x) {
                        let k = choose|k: int| 0 <= k < longer.len() && longer[k] == x;
                        if k < i - 1 {
                            assert(shorter[k] == x);
                        }
                    }
                    if shorter.contains(x) {
                        let k = choose|k: int| 0 <= k < shorter.len() && shorter[k] == x;
                        assert(longer[k] == x);
                    }
                    if x == all[i - 1] {
                        assert(longer[i - 1] == x);
                    }
                }
            }
            assert(db.channels() =~= old(db).channels().union(
                all.subrange(0, i as int).to_set(),
            ));
        }
    }
    proof {
        assert(all.subrange(i as int, all.len() as int) =~= Seq::<Seq<char>>::empty());
        assert(all.subrange(0, i as int) =~= all);
        assert(frames_view(out@) + Seq::<FrameView>::empty() =~= frames_view(out@));
    }
    subscribe_to.clear();
    out
}

/// What a connection that listens to channels waits for.
pub enum Event {
    /// A channel yielded a message, or told of messages that were lost to a
    /// subscriber that lagged.
    Message { channel: String, payload: Option<Vec<u8>> },
    /// The client sent a frame, or closed the connection.
    Inbound(Option<Frame>),
    /// The server shuts down.
    Shutdown,
}

/// What a connection that listens to channels does after an event.
pub enum Step {
    /// Write these frames to the client, in order, and go on.
    Write(Vec<Frame>),
    /// Stop serving the connection.
    Stop,
}

/// What a connection that listens to channels does with an event: a message
/// goes to the client; messages that were lost are passed over; a frame of
/// the client is handled as a command; and the connection stops where the
/// client closed it or the server shuts down.
pub fn on_event(event: Event, subscribe_to: &mut Vec<String>, subscriptions: &mut Subscriptions) -> (r:
    Result<Step, ParseError>)
    ensures
        match event {
            Event::Message { channel, payload: Some(msg) } => {
                &&& r matches Ok(Step::Write(frames))
                &&& frames_view(frames@) == seq![spec_message(channel@, msg@)]
            },
            Event::Message { channel, payload: None } => {
                &&& r matches Ok(Step::Write(frames))
                &&& frames@.len() == 0
            },
            Event::Inbound(Some(frame)) => match Command::spec_from_frame(frame@) {
                Ok(CommandView::Subscribe(view)) => {
                    &&& r matches Ok(Step::Write(frames))
                    &&& frames@.len() == 0
                },
                Ok(CommandView::Unsubscribe(view)) => {
                    &&& r matches Ok(Step::Write(frames))
                    &&& frames_view(frames@) == unsubscribe_acks(
                        subscribed(*old(subscriptions)),
                        unsubscribe_targets(subscribed(*old(subscriptions)), view.channels),
                    )
                },
                Ok(other) => {
                    &&& r matches Ok(Step::Write(frames))
                    &&& frames_view(frames@) == seq![
                        Unknown::spec_apply(
                            crate::cmd::unknown::UnknownView {
                                command_name: Command::spec_name(other),
                            },
                        ),
                    ]
                },
                Err(kind) => r matches Err(e) && e.kind() == kind,
            },
            Event::Inbound(None) => r matches Ok(Step::Stop),
            Event::Shutdown => r matches Ok(Step::Stop),
        },
        match event {
            Event::Inbound(Some(frame)) => match Command::spec_from_frame(frame@) {
                Ok(CommandView::Subscribe(view)) => {
                    &&& texts(final(subscribe_to)@) == texts(old(subscribe_to)@) + view.channels
                    &&& subscribed(*final(subscriptions)) == subscribed(*old(subscriptions))
                },
                Ok(CommandView::Unsubscribe(view)) => {
                    &&& texts(final(subscribe_to)@) == texts(old(subscribe_to)@)
                    &&& subscribed(*final(subscriptions)) == after_unsubscribe(
                        subscribed(*old(subscriptions)),
                        unsubscribe_targets(subscribed(*old(subscriptions)), view.channels),
                    )
                },
                _ => {
                    &&& texts(final(subscribe_to)@) == texts(old(subscribe_to)@)
                    &&& subscribed(*final(subscriptions)) == subscribed(*old(subscriptions))
                },
            },
            _ => {
                &&& texts(final(subscribe_to)@) == texts(old(subscribe_to)@)
                &&& subscribed(*final(subscriptions)) == subscribed(*old(subscriptions))
            },
        },
{
    match event {
        Event::Message { channel, payload } => {
            let mut out: Vec<Frame> = Vec::new();
            if let Some(msg) = payload {
                out.push(make_message_frame(channel, msg));
                assert(frames_view(out@) =~= seq![out@[0]@]);
            }
            Ok(Step::Write(out))
        },
        Event::Inbound(Some(frame)) => match handle_command(frame, subscribe_to, subscriptions) {
            Ok(frames) => Ok(Step::Write(frames)),
            Err(e) => Err(e),
        },
        Event::Inbound(None) => Ok(Step::Stop),
        Event::Shutdown => Ok(Step::Stop),
    }
}

} // verus!
