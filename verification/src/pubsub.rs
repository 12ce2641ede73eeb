//! The broadcast channels of tokio, as the store uses them: one channel for
//! each name that was ever subscribed to.

use crate::text::texts;
use tokio::sync::broadcast::{Receiver, Sender};
use tokio_stream::wrappers::BroadcastStream;
use tokio_stream::StreamMap;
use vstd::prelude::*;

verus! {

/// The sending half of a broadcast channel of tokio. Nothing is known of
/// what is inside.
#[verifier::external_type_specification]
#[verifier::external_body]
#[verifier::reject_recursive_types(T)]
pub struct ExSender<T>(Sender<T>);

/// A receiving half of a broadcast channel of tokio. Nothing is known of
/// what is inside.
#[verifier::external_type_specification]
#[verifier::external_body]
#[verifier::reject_recursive_types(T)]
pub struct ExReceiver<T>(Receiver<T>);

/// Calls `tokio::sync::broadcast::channel`, which makes a channel that keeps
/// up to `capacity` messages for receivers that lag. The call panics on a
/// capacity of zero or above `usize::MAX / 2`; these are left out.
#[verifier::external_body]
pub(crate) fn open_channel(capacity: usize) -> (r: (Sender<Vec<u8>>, Receiver<Vec<u8>>))
    requires
        0 < capacity <= usize::MAX / 2,
{
    tokio::sync::broadcast::channel(capacity)
}

/// Calls `Sender::subscribe`, which hands out one more receiver of the
/// channel. (The call panics where the channel already has a quarter of
/// `usize::MAX` receivers, more than a process can hold.)
#[verifier::external_body]
pub(crate) fn new_receiver(sender: &Sender<Vec<u8>>) -> Receiver<Vec<u8>> {
    sender.subscribe()
}

/// Calls `Sender::send`. The call fails where the channel has no receiver;
/// else it gives the number of receivers at that moment, which is then not
/// zero. How many there are depends on who subscribed and who left.
#[verifier::external_body]
pub(crate) fn send(sender: &Sender<Vec<u8>>, value: Vec<u8>) -> (r: Option<usize>)
    ensures
        r matches Some(n) ==> n > 0,
{
    sender.send(value).ok()
}

/// A receiver of a broadcast channel as a stream, from tokio-stream. Nothing
/// is known of what is inside.
#[verifier::external_type_specification]
#[verifier::external_body]
#[verifier::reject_recursive_types(T)]
pub struct ExBroadcastStream<T>(BroadcastStream<T>);

/// The map of tokio-stream from keys to streams, which is itself the stream
/// of what its streams yield.
#[verifier::external_type_specification]
#[verifier::external_body]
#[verifier::reject_recursive_types(K)]
#[verifier::reject_recursive_types(V)]
pub struct ExStreamMap<K, V>(StreamMap<K, V>);

/// The channels that a connection listens to, each with the stream of its
/// messages.
pub type Subscriptions = StreamMap<String, BroadcastStream<Vec<u8>>>;

/// The keys of a stream map, in the order in which the map holds them.
pub uninterp spec fn subscribed(map: StreamMap<String, BroadcastStream<Vec<u8>>>) -> Seq<Seq<char>>;

/// The first index at which `name` stands in `names`.
pub open spec fn first_index(names: Seq<Seq<char>>, name: Seq<char>) -> int {
    choose|i: int|
        0 <= i < names.len() && names[i] == name && forall|j: int| 0 <= j < i ==> names[j] != name
}

/// The names `names` without the first that is `name`; the last name
/// takes its place, as when a stream map removes a key.
pub open spec fn without(names: Seq<Seq<char>>, name: Seq<char>) -> Seq<Seq<char>> {
    if names.contains(name) {
        names.update(first_index(names, name), names.last()).drop_last()
    } else {
        names
    }
}

/// Calls `StreamMap::len`: the number of keys.
#[verifier::external_body]
pub(crate) fn subscriptions_len(map: &Subscriptions) -> (n: usize)
    ensures
        n == subscribed(*map).len(),
{
    map.len()
}

/// Calls `StreamMap::insert`, which removes the key if the map holds it, as
/// `StreamMap::remove` does, and then puts the key and the stream last.
#[verifier::external_body]
pub(crate) fn subscriptions_insert(
    map: &mut Subscriptions,
    name: String,
    stream: BroadcastStream<Vec<u8>>,
)
    ensures
        subscribed(*final(map)) == without(subscribed(*old(map)), name@).push(name@),
{
    map.insert(name, stream);
}

/// Calls `StreamMap::remove`, which looks for the first entry of the key and,
/// if there is one, puts the last entry of the map in its place.
#[verifier::external_body]
pub(crate) fn subscriptions_remove(map: &mut Subscriptions, name: &str)
    ensures
        subscribed(*final(map)) == without(subscribed(*old(map)), name@),
{
    map.remove(name);
}

/// Calls `StreamMap::keys`, which walks the keys in the order in which the
/// map holds them, and copies each.
#[verifier::external_body]
pub(crate) fn subscriptions_keys(map: &Subscriptions) -> (names: Vec<String>)
    ensures
        texts(names@) == subscribed(*map),
{
    map.keys().cloned().collect()
}

/// Calls `BroadcastStream::new`, which wraps a receiver as a stream.
#[verifier::external_body]
pub(crate) fn into_stream(receiver: Receiver<Vec<u8>>) -> BroadcastStream<Vec<u8>> {
    BroadcastStream::new(receiver)
}

} // verus!
