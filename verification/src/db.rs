//! The store: the values under their keys, the deadlines of the entries that
//! expire, and the channels that were subscribed to.

use crate::cmd::Expiry;
use crate::pubsub::{new_receiver, open_channel, send};
use crate::text::text_eq;
use tokio::sync::broadcast::{Receiver, Sender};
use vstd::prelude::*;

verus! {

/// How many messages a channel keeps for subscribers that lag.
pub const CHANNEL_CAPACITY: usize = 1024;

/// A value in the store.
struct Entry {
    /// The key that the value is stored under.
    key: String,
    /// The number of the `set` that stored the value.
    id: u64,
    /// The value.
    data: Vec<u8>,
    /// The time at which the entry expires, if it does.
    expires_at: Option<u128>,
}

/// The deadline of an entry that expires.
struct Expiration {
    /// The time at which the entry expires.
    when: u128,
    /// The number of the `set` that stored the entry.
    id: u64,
    /// The key of the entry.
    key: String,
}

/// A channel that was subscribed to.
struct Channel {
    /// The name of the channel.
    name: String,
    /// The sending half.
    sender: Sender<Vec<u8>>,
}

/// What an entry holds, as mathematical values.
pub struct EntryView {
    pub id: u64,
    pub data: Seq<u8>,
    pub expires_at: Option<u128>,
}

impl View for Entry {
    type V = EntryView;

    closed spec fn view(&self) -> EntryView {
        EntryView { id: self.id, data: self.data@, expires_at: self.expires_at }
    }
}

/// The state of the store. Times are in milliseconds from a start that the
/// caller chooses.
pub struct Db {
    /// The entries, no two under one key.
    entries: Vec<Entry>,
    /// The channels, no two of one name.
    pub_sub: Vec<Channel>,
    /// The deadlines, soonest first; among equal times the lower number
    /// first.
    expirations: Vec<Expiration>,
    /// The number that the next `set` gets.
    next_id: u64,
    /// Whether the store is shutting down.
    shutdown: bool,
}

/// Whether the deadline `(when1, id1)` comes before `(when2, id2)`.
pub open spec fn deadline_before(when1: u128, id1: u64, when2: u128, id2: u64) -> bool {
    when1 < when2 || (when1 == when2 && id1 < id2)
}

/// Whether an entry lives on at the time `now`: it has no deadline, or one
/// that is still to come.
pub open spec fn lives(entry: EntryView, now: u64) -> bool {
    match entry.expires_at {
        Some(when) => when > now,
        None => true,
    }
}

/// The entries of `entries` that live on at the time `now`.
pub open spec fn unexpired(entries: Map<Seq<char>, EntryView>, now: u64) -> Map<
    Seq<char>,
    EntryView,
> {
    Map::new(|key: Seq<char>| entries.contains_key(key) && lives(entries[key], now), |key: Seq<char>| entries[key])
}

/// The deadlines of `expirations` that are still to come at the time `now`.
pub open spec fn pending(expirations: Map<(u128, u64), Seq<char>>, now: u64) -> Map<
    (u128, u64),
    Seq<char>,
> {
    Map::new(
        |d: (u128, u64)| expirations.contains_key(d) && d.0 > now,
        |d: (u128, u64)| expirations[d],
    )
}

/// The time at which an entry expires that is stored at the time `now` to
/// live for `expire`.
pub open spec fn deadline_of(expire: Option<Expiry>, now: u64) -> Option<u128> {
    match expire {
        Some(expiry) => Some((now + expiry.spec_as_millis()) as u128),
        None => None,
    }
}

/// The deadlines after an entry was stored under `key` with the number `id`
/// and the deadline `deadline`, in a store that held `entries` and
/// `expirations`: the deadline of the entry that was under the key is gone,
/// and that of the new entry is there.
pub open spec fn deadlines_after_set(
    entries: Map<Seq<char>, EntryView>,
    expirations: Map<(u128, u64), Seq<char>>,
    key: Seq<char>,
    id: u64,
    deadline: Option<u128>,
) -> Map<(u128, u64), Seq<char>> {
    let kept = if entries.contains_key(key) && entries[key].expires_at is Some {
        expirations.remove((entries[key].expires_at->0, entries[key].id))
    } else {
        expirations
    };
    match deadline {
        Some(when) => kept.insert((when, id), key),
        None => kept,
    }
}

/// Whether the task that purges is to be woken for the deadline `deadline`:
/// there is one, and it comes before every deadline of `expirations`.
pub open spec fn wakes(expirations: Map<(u128, u64), Seq<char>>, deadline: Option<u128>) -> bool {
    deadline matches Some(when) && forall|d: (u128, u64)|
        expirations.contains_key(d) ==> when < d.0
}

/// What `Sender::send` reported, as a number of subscribers: the number it
/// gave, or none where it failed for want of a subscriber.
pub fn delivered(outcome: Option<usize>) -> (n: usize)
    ensures
        n == (match outcome {
            Some(count) => count,
            None => 0,
        }),
{
    match outcome {
        Some(count) => count,
        None => 0,
    }
}

/// Whether an entry stands at index `i` of `entries` under the key `key`.
spec fn entry_at(entries: Seq<Entry>, i: int, key: Seq<char>) -> bool {
    0 <= i < entries.len() && entries[i].key@ == key
}

/// Whether a deadline stands at index `i` of `expirations` for the time
/// `when` and the number `id`.
spec fn deadline_at(expirations: Seq<Expiration>, i: int, when: u128, id: u64) -> bool {
    0 <= i < expirations.len() && expirations[i].when == when && expirations[i].id == id
}

/// Whether a channel stands at index `i` of `channels` under the name `name`.
spec fn channel_at(channels: Seq<Channel>, i: int, name: Seq<char>) -> bool {
    0 <= i < channels.len() && channels[i].name@ == name
}

/// Each key of `entries` with what is stored under it.
spec fn entries_map(entries: Seq<Entry>) -> Map<Seq<char>, EntryView> {
    Map::new(
        |key: Seq<char>| exists|i: int| entry_at(entries, i, key),
        |key: Seq<char>| entries[choose|i: int| entry_at(entries, i, key)]@,
    )
}

/// Each time and number of `expirations` with the key that expires then.
spec fn deadlines_map(expirations: Seq<Expiration>) -> Map<(u128, u64), Seq<char>> {
    Map::new(
        |d: (u128, u64)| exists|i: int| deadline_at(expirations, i, d.0, d.1),
        |d: (u128, u64)| expirations[choose|i: int| deadline_at(expirations, i, d.0, d.1)].key@,
    )
}

/// The names of `channels`.
spec fn channel_names(channels: Seq<Channel>) -> Set<Seq<char>> {
    Set::new(|name: Seq<char>| exists|i: int| channel_at(channels, i, name))
}

/// Whether the deadline `d` is that of an entry of `entries`.
spec fn refers(entries: Seq<Entry>, d: Expiration) -> bool {
    exists|j: int|
        0 <= j < entries.len() && (#[trigger] entries[j]).key@ == d.key@ && entries[j].id == d.id
            && entries[j].expires_at == Some(d.when)
}

/// Whether the entry `e`, if it expires, has its deadline in `expirations`.
spec fn referred(expirations: Seq<Expiration>, e: Entry) -> bool {
    e.expires_at matches Some(when) ==> exists|i: int|
        0 <= i < expirations.len() && (#[trigger] expirations[i]).when == when
            && expirations[i].id == e.id && expirations[i].key@ == e.key@
}

/// Whether entries and deadlines are in order: no key and no number twice,
/// every number below the next one, the deadlines in rising order, and each
/// deadline with its entry and each entry that expires with its deadline.
spec fn store_wf(entries: Seq<Entry>, expirations: Seq<Expiration>, next_id: u64) -> bool {
    &&& forall|i: int, j: int|
        0 <= i < j < entries.len() ==> (#[trigger] entries[i]).key@ != (#[trigger] entries[j]).key@
    &&& forall|i: int, j: int|
        0 <= i < j < entries.len() ==> (#[trigger] entries[i]).id != (#[trigger] entries[j]).id
    &&& forall|i: int| 0 <= i < entries.len() ==> (#[trigger] entries[i]).id < next_id
    &&& forall|i: int, j: int|
        0 <= i < j < expirations.len() ==> deadline_before(
            (#[trigger] expirations[i]).when,
            expirations[i].id,
            (#[trigger] expirations[j]).when,
            expirations[j].id,
        )
    &&& forall|i: int| 0 <= i < expirations.len() ==> refers(entries, #[trigger] expirations[i])
    &&& forall|i: int| 0 <= i < entries.len() ==> referred(expirations, #[trigger] entries[i])
}

/// Where no key stands twice, the entry at an index is what the map holds
/// under its key.
proof fn lemma_entry(entries: Seq<Entry>, i: int)
    requires
        forall|i: int, j: int|
            0 <= i < j < entries.len() ==> (#[trigger] entries[i]).key@ != (
            #[trigger] entries[j]).key@,
        0 <= i < entries.len(),
    ensures
        entries_map(entries).contains_key(entries[i].key@),
        entries_map(entries)[entries[i].key@] == entries[i]@,
{
    let key = entries[i].key@;
    assert(entry_at(entries, i, key));
    let j = choose|j: int| entry_at(entries, j, key);
    assert(j == i);
}

/// Where the deadlines rise, the deadline at an index is what the map holds
/// for its time and number.
proof fn lemma_deadline(expirations: Seq<Expiration>, i: int)
    requires
        forall|i: int, j: int|
            0 <= i < j < expirations.len() ==> deadline_before(
                (#[trigger] expirations[i]).when,
                expirations[i].id,
                (#[trigger] expirations[j]).when,
                expirations[j].id,
            ),
        0 <= i < expirations.len(),
    ensures
        deadlines_map(expirations).contains_key((expirations[i].when, expirations[i].id)),
        deadlines_map(expirations)[(expirations[i].when, expirations[i].id)]
            == expirations[i].key@,
{
    let d = (expirations[i].when, expirations[i].id);
    assert(deadline_at(expirations, i, d.0, d.1));
    let j = choose|j: int| deadline_at(expirations, j, d.0, d.1);
    assert(j == i) by {
        if j < i {
            assert(deadline_before(
                expirations[j].when,
                expirations[j].id,
                expirations[i].when,
                expirations[i].id,
            ));
        }
        if i < j {
            assert(deadline_before(
                expirations[i].when,
                expirations[i].id,
                expirations[j].when,
                expirations[j].id,
            ));
        }
    }
}

/// Taking an entry out of a sequence moves the later ones one place down.
proof fn lemma_remove_index<T>(s: Seq<T>, i: int)
    requires
        0 <= i < s.len(),
    ensures
        s.remove(i).len() == s.len() - 1,
        forall|j: int| 0 <= j < i ==> #[trigger] s.remove(i)[j] == s[j],
        forall|j: int| i <= j < s.len() - 1 ==> #[trigger] s.remove(i)[j] == s[j + 1],
{
}

/// Putting an entry into a sequence moves the later ones one place up.
proof fn lemma_insert_index<T>(s: Seq<T>, i: int, a: T)
    requires
        0 <= i <= s.len(),
    ensures
        s.insert(i, a).len() == s.len() + 1,
        forall|j: int| 0 <= j < i ==> #[trigger] s.insert(i, a)[j] == s[j],
        s.insert(i, a)[i] == a,
        forall|j: int| i < j <= s.len() ==> #[trigger] s.insert(i, a)[j] == s[j - 1],
{
}

/// Without the entry at index `i`, which has no deadline, a store in order
/// is in order, and holds what it held but for the key of that entry.
proof fn lemma_remove_plain(entries: Seq<Entry>, expirations: Seq<Expiration>, next_id: u64, i: int)
    requires
        store_wf(entries, expirations, next_id),
        0 <= i < entries.len(),
        entries[i].expires_at is None,
    ensures
        store_wf(entries.remove(i), expirations, next_id),
        entries_map(entries.remove(i)) == entries_map(entries).remove(entries[i].key@),
        forall|j: int| !entry_at(entries.remove(i), j, entries[i].key@),
{
    let after = entries.remove(i);
    lemma_remove_index(entries, i);
    assert forall|m: int| 0 <= m < expirations.len() implies refers(
        after,
        #[trigger] expirations[m],
    ) by {
        let d = expirations[m];
        assert(refers(entries, d));
        let j = choose|j: int|
            0 <= j < entries.len() && (#[trigger] entries[j]).key@ == d.key@ && entries[j].id
                == d.id && entries[j].expires_at == Some(d.when);
        assert(j != i);
        let j2 = if j < i {
            j
        } else {
            j - 1
        };
        assert(after[j2] == entries[j]);
    }
    assert forall|m: int| 0 <= m < after.len() implies referred(
        expirations,
        #[trigger] after[m],
    ) by {
        let m0 = if m < i {
            m
        } else {
            m + 1
        };
        assert(after[m] == entries[m0]);
        assert(referred(expirations, entries[m0]));
    }
    lemma_removed_map(entries, i);
}

/// Without the entry at index `i`, entries with no key twice hold what they
/// held but for the key of that entry.
proof fn lemma_removed_map(entries: Seq<Entry>, i: int)
    requires
        forall|i: int, j: int|
            0 <= i < j < entries.len() ==> (#[trigger] entries[i]).key@ != (
            #[trigger] entries[j]).key@,
        0 <= i < entries.len(),
    ensures
        entries_map(entries.remove(i)) == entries_map(entries).remove(entries[i].key@),
        forall|j: int| !entry_at(entries.remove(i), j, entries[i].key@),
        forall|a: int, b: int|
            0 <= a < b < entries.remove(i).len() ==> (#[trigger] entries.remove(i)[a]).key@ != (
            #[trigger] entries.remove(i)[b]).key@,
{
    let after = entries.remove(i);
    let gone = entries[i].key@;
    lemma_remove_index(entries, i);
    assert forall|a: int, b: int| 0 <= a < b < after.len() implies (#[trigger] after[a]).key@ != (
    #[trigger] after[b]).key@ by {
        let a0 = if a < i {
            a
        } else {
            a + 1
        };
        let b0 = if b < i {
            b
        } else {
            b + 1
        };
        assert(after[a] == entries[a0] && after[b] == entries[b0]);
    }
    assert forall|j: int| !entry_at(after, j, gone) by {
        if entry_at(after, j, gone) {
            let j0 = if j < i {
                j
            } else {
                j + 1
            };
            assert(after[j] == entries[j0]);
        }
    }
    assert forall|key: Seq<char>|
        entries_map(after).contains_key(key) == entries_map(entries).remove(gone).contains_key(
            key,
        ) by {
        if entries_map(after).contains_key(key) {
            let j = choose|j: int| entry_at(after, j, key);
            let j0 = if j < i {
                j
            } else {
                j + 1
            };
            assert(after[j] == entries[j0]);
            assert(entry_at(entries, j0, key));
        }
        if entries_map(entries).remove(gone).contains_key(key) {
            let j0 = choose|j: int| entry_at(entries, j, key);
            assert(j0 != i);
            let j = if j0 < i {
                j0
            } else {
                j0 - 1
            };
            assert(after[j] == entries[j0]);
            assert(entry_at(after, j, key));
        }
    }
    assert forall|key: Seq<char>| entries_map(after).contains_key(key) implies entries_map(
        after,
    )[key] == entries_map(entries).remove(gone)[key] by {
        let j = choose|j: int| entry_at(after, j, key);
        let j0 = if j < i {
            j
        } else {
            j + 1
        };
        assert(after[j] == entries[j0]);
        lemma_entry(after, j);
        lemma_entry(entries, j0);
    }
    assert(entries_map(after) =~= entries_map(entries).remove(gone));
}

/// Without the deadline at index `k`, deadlines that rise still rise, and
/// hold what they held but for that time and number.
proof fn lemma_removed_deadlines(expirations: Seq<Expiration>, k: int)
    requires
        forall|i: int, j: int|
            0 <= i < j < expirations.len() ==> deadline_before(
                (#[trigger] expirations[i]).when,
                expirations[i].id,
                (#[trigger] expirations[j]).when,
                expirations[j].id,
            ),
        0 <= k < expirations.len(),
    ensures
        deadlines_map(expirations.remove(k)) == deadlines_map(expirations).remove(
            (expirations[k].when, expirations[k].id),
        ),
        forall|i: int, j: int|
            0 <= i < j < expirations.remove(k).len() ==> deadline_before(
                (#[trigger] expirations.remove(k)[i]).when,
                expirations.remove(k)[i].id,
                (#[trigger] expirations.remove(k)[j]).when,
                expirations.remove(k)[j].id,
            ),
{
    let after = expirations.remove(k);
    let gone = (expirations[k].when, expirations[k].id);
    lemma_remove_index(expirations, k);
    assert forall|a: int, b: int| 0 <= a < b < after.len() implies deadline_before(
        (#[trigger] after[a]).when,
        after[a].id,
        (#[trigger] after[b]).when,
        after[b].id,
    ) by {
        let a0 = if a < k {
            a
        } else {
            a + 1
        };
        let b0 = if b < k {
            b
        } else {
            b + 1
        };
        assert(after[a] == expirations[a0] && after[b] == expirations[b0]);
    }
    assert forall|d: (u128, u64)|
        deadlines_map(after).contains_key(d) == deadlines_map(expirations).remove(
            gone,
        ).contains_key(d) by {
        if deadlines_map(after).contains_key(d) {
            let j = choose|j: int| deadline_at(after, j, d.0, d.1);
            let j0 = if j < k {
                j
            } else {
                j + 1
            };
            assert(after[j] == expirations[j0]);
            assert(deadline_at(expirations, j0, d.0, d.1));
            if j0 < k {
                assert(deadline_before(
                    expirations[j0].when,
                    expirations[j0].id,
                    expirations[k].when,
                    expirations[k].id,
                ));
            } else {
                assert(deadline_before(
                    expirations[k].when,
                    expirations[k].id,
                    expirations[j0].when,
                    expirations[j0].id,
                ));
            }
        }
        if deadlines_map(expirations).remove(gone).contains_key(d) {
            let j0 = choose|j: int| deadline_at(expirations, j, d.0, d.1);
            assert(j0 != k);
            let j = if j0 < k {
                j0
            } else {
                j0 - 1
            };
            assert(after[j] == expirations[j0]);
            assert(deadline_at(after, j, d.0, d.1));
        }
    }
    assert forall|d: (u128, u64)| deadlines_map(after).contains_key(d) implies deadlines_map(
        after,
    )[d] == deadlines_map(expirations).remove(gone)[d] by {
        let j = choose|j: int| deadline_at(after, j, d.0, d.1);
        let j0 = if j < k {
            j
        } else {
            j + 1
        };
        assert(after[j] == expirations[j0]);
        lemma_deadline(after, j);
        lemma_deadline(expirations, j0);
    }
    assert(deadlines_map(after) =~= deadlines_map(expirations).remove(gone));
}

/// Without the entry at index `i` and its deadline at index `k`, a store in
/// order is in order, and holds what it held but for the two.
proof fn lemma_remove_expiring(
    entries: Seq<Entry>,
    expirations: Seq<Expiration>,
    next_id: u64,
    i: int,
    k: int,
)
    requires
        store_wf(entries, expirations, next_id),
        0 <= i < entries.len(),
        0 <= k < expirations.len(),
        entries[i].expires_at == Some(expirations[k].when),
        entries[i].id == expirations[k].id,
    ensures
        store_wf(entries.remove(i), expirations.remove(k), next_id),
        entries_map(entries.remove(i)) == entries_map(entries).remove(entries[i].key@),
        deadlines_map(expirations.remove(k)) == deadlines_map(expirations).remove(
            (expirations[k].when, expirations[k].id),
        ),
        forall|j: int| !entry_at(entries.remove(i), j, entries[i].key@),
{
    let after = entries.remove(i);
    let later = expirations.remove(k);
    lemma_remove_index(entries, i);
    lemma_remove_index(expirations, k);
    lemma_removed_map(entries, i);
    lemma_removed_deadlines(expirations, k);
    assert forall|a: int, b: int| 0 <= a < b < after.len() implies (#[trigger] after[a]).id != (
    #[trigger] after[b]).id by {
        let a0 = if a < i {
            a
        } else {
            a + 1
        };
        let b0 = if b < i {
            b
        } else {
            b + 1
        };
        assert(after[a] == entries[a0] && after[b] == entries[b0]);
    }
    assert forall|a: int| 0 <= a < after.len() implies (#[trigger] after[a]).id < next_id by {
        let a0 = if a < i {
            a
        } else {
            a + 1
        };
        assert(after[a] == entries[a0]);
    }
    assert forall|m: int| 0 <= m < later.len() implies refers(after, #[trigger] later[m]) by {
        let m0 = if m < k {
            m
        } else {
            m + 1
        };
        let d = expirations[m0];
        assert(later[m] == d);
        assert(refers(entries, d));
        let j = choose|j: int|
            0 <= j < entries.len() && (#[trigger] entries[j]).key@ == d.key@ && entries[j].id
                == d.id && entries[j].expires_at == Some(d.when);
        if j == i {
            if m0 < k {
                assert(deadline_before(
                    expirations[m0].when,
                    expirations[m0].id,
                    expirations[k].when,
                    expirations[k].id,
                ));
            } else {
                assert(deadline_before(
                    expirations[k].when,
                    expirations[k].id,
                    expirations[m0].when,
                    expirations[m0].id,
                ));
            }
        }
        let j2 = if j < i {
            j
        } else {
            j - 1
        };
        assert(after[j2] == entries[j]);
    }
    assert forall|m: int| 0 <= m < after.len() implies referred(later, #[trigger] after[m]) by {
        let m0 = if m < i {
            m
        } else {
            m + 1
        };
        let e = entries[m0];
        assert(after[m] == e);
        assert(referred(expirations, e));
        if let Some(when) = e.expires_at {
            let q = choose|q: int|
                0 <= q < expirations.len() && (#[trigger] expirations[q]).when == when
                    && expirations[q].id == e.id && expirations[q].key@ == e.key@;
            assert(q != k) by {
                if m0 < i {
                    assert(entries[m0].id != entries[i].id);
                } else {
                    assert(entries[i].id != entries[m0].id);
                }
            }
            let q2 = if q < k {
                q
            } else {
                q - 1
            };
            assert(later[q2] == expirations[q]);
        }
    }
}

/// With one more entry, under a key that was not there, entries with no key
/// twice hold what they held and the new entry under its key.
proof fn lemma_pushed_map(entries: Seq<Entry>, e: Entry)
    requires
        forall|i: int, j: int|
            0 <= i < j < entries.len() ==> (#[trigger] entries[i]).key@ != (
            #[trigger] entries[j]).key@,
        forall|j: int| !entry_at(entries, j, e.key@),
    ensures
        entries_map(entries.push(e)) == entries_map(entries).insert(e.key@, e@),
        forall|a: int, b: int|
            0 <= a < b < entries.push(e).len() ==> (#[trigger] entries.push(e)[a]).key@ != (
            #[trigger] entries.push(e)[b]).key@,
{
    let after = entries.push(e);
    let last = entries.len() as int;
    assert forall|a: int, b: int| 0 <= a < b < after.len() implies (#[trigger] after[a]).key@ != (
    #[trigger] after[b]).key@ by {
        if b == last {
            assert(!entry_at(entries, a, e.key@));
        }
    }
    assert forall|key: Seq<char>|
        entries_map(after).contains_key(key) == entries_map(entries).insert(
            e.key@,
            e@,
        ).contains_key(key) by {
        if entries_map(after).contains_key(key) {
            let j = choose|j: int| entry_at(after, j, key);
            if j < last {
                assert(entry_at(entries, j, key));
            }
        }
        if entries_map(entries).insert(e.key@, e@).contains_key(key) {
            if key == e.key@ {
                assert(entry_at(after, last, key));
            } else {
                let j = choose|j: int| entry_at(entries, j, key);
                assert(entry_at(after, j, key));
            }
        }
    }
    assert forall|key: Seq<char>| entries_map(after).contains_key(key) implies entries_map(
        after,
    )[key] == entries_map(entries).insert(e.key@, e@)[key] by {
        let j = choose|j: int| entry_at(after, j, key);
        lemma_entry(after, j);
        if j < last {
            assert(entry_at(entries, j, key));
            lemma_entry(entries, j);
        }
    }
    assert(entries_map(after) =~= entries_map(entries).insert(e.key@, e@));
}

/// With one more deadline at its place in the order, deadlines that rise
/// still rise, and hold what they held and the new deadline.
proof fn lemma_inserted_deadlines(expirations: Seq<Expiration>, pos: int, d: Expiration)
    requires
        forall|i: int, j: int|
            0 <= i < j < expirations.len() ==> deadline_before(
                (#[trigger] expirations[i]).when,
                expirations[i].id,
                (#[trigger] expirations[j]).when,
                expirations[j].id,
            ),
        0 <= pos <= expirations.len(),
        forall|j: int|
            0 <= j < pos ==> deadline_before(
                (#[trigger] expirations[j]).when,
                expirations[j].id,
                d.when,
                d.id,
            ),
        forall|j: int|
            pos <= j < expirations.len() ==> deadline_before(
                d.when,
                d.id,
                (#[trigger] expirations[j]).when,
                expirations[j].id,
            ),
    ensures
        deadlines_map(expirations.insert(pos, d)) == deadlines_map(expirations).insert(
            (d.when, d.id),
            d.key@,
        ),
        forall|i: int, j: int|
            0 <= i < j < expirations.insert(pos, d).len() ==> deadline_before(
                (#[trigger] expirations.insert(pos, d)[i]).when,
                expirations.insert(pos, d)[i].id,
                (#[trigger] expirations.insert(pos, d)[j]).when,
                expirations.insert(pos, d)[j].id,
            ),
{
    let after = expirations.insert(pos, d);
    let added = (d.when, d.id);
    lemma_insert_index(expirations, pos, d);
    assert forall|a: int, b: int| 0 <= a < b < after.len() implies deadline_before(
        (#[trigger] after[a]).when,
        after[a].id,
        (#[trigger] after[b]).when,
        after[b].id,
    ) by {
        let a0 = if a < pos {
            a
        } else {
            a - 1
        };
        let b0 = if b < pos {
            b
        } else {
            b - 1
        };
        if a != pos {
            assert(after[a] == expirations[a0]);
        }
        if b != pos {
            assert(after[b] == expirations[b0]);
        }
    }
    assert forall|x: (u128, u64)|
        deadlines_map(after).contains_key(x) == deadlines_map(expirations).insert(
            added,
            d.key@,
        ).contains_key(x) by {
        if deadlines_map(after).contains_key(x) {
            let j = choose|j: int| deadline_at(after, j, x.0, x.1);
            if j < pos {
                assert(deadline_at(expirations, j, x.0, x.1));
            } else if j > pos {
                assert(after[j] == expirations[j - 1]);
                assert(deadline_at(expirations, j - 1, x.0, x.1));
            }
        }
        if deadlines_map(expirations).insert(added, d.key@).contains_key(x) {
            if x == added {
                assert(deadline_at(after, pos, x.0, x.1));
            } else {
                let j0 = choose|j: int| deadline_at(expirations, j, x.0, x.1);
                let j = if j0 < pos {
                    j0
                } else {
                    j0 + 1
                };
                assert(after[j] == expirations[j0]);
                assert(deadline_at(after, j, x.0, x.1));
            }
        }
    }
    assert forall|x: (u128, u64)| deadlines_map(after).contains_key(x) implies deadlines_map(
        after,
    )[x] == deadlines_map(expirations).insert(added, d.key@)[x] by {
        let j = choose|j: int| deadline_at(after, j, x.0, x.1);
        lemma_deadline(after, j);
        if j < pos {
            assert(deadline_at(expirations, j, x.0, x.1));
            lemma_deadline(expirations, j);
        } else if j > pos {
            assert(after[j] == expirations[j - 1]);
            assert(deadline_at(expirations, j - 1, x.0, x.1));
            lemma_deadline(expirations, j - 1);
        }
    }
    assert(deadlines_map(after) =~= deadlines_map(expirations).insert(added, d.key@));
}

/// With one more entry that does not expire, under a key that was not there
/// and with the next number, a store in order is in order.
proof fn lemma_push_plain(entries: Seq<Entry>, expirations: Seq<Expiration>, next_id: u64, e: Entry)
    requires
        store_wf(entries, expirations, next_id),
        forall|j: int| !entry_at(entries, j, e.key@),
        e.id == next_id,
        next_id < u64::MAX,
        e.expires_at is None,
    ensures
        store_wf(entries.push(e), expirations, (next_id + 1) as u64),
        entries_map(entries.push(e)) == entries_map(entries).insert(e.key@, e@),
{
    let after = entries.push(e);
    lemma_pushed_map(entries, e);
    assert forall|m: int| 0 <= m < expirations.len() implies refers(
        after,
        #[trigger] expirations[m],
    ) by {
        let d = expirations[m];
        assert(refers(entries, d));
        let j = choose|j: int|
            0 <= j < entries.len() && (#[trigger] entries[j]).key@ == d.key@ && entries[j].id
                == d.id && entries[j].expires_at == Some(d.when);
        assert(after[j] == entries[j]);
    }
    assert forall|m: int| 0 <= m < after.len() implies referred(
        expirations,
        #[trigger] after[m],
    ) by {
        if m < entries.len() {
            assert(after[m] == entries[m]);
            assert(referred(expirations, entries[m]));
        }
    }
}

/// With one more entry that expires, under a key that was not there and with
/// the next number, and with its deadline at its place in the order, a store
/// in order is in order.
proof fn lemma_push_expiring(
    entries: Seq<Entry>,
    expirations: Seq<Expiration>,
    next_id: u64,
    e: Entry,
    pos: int,
    d: Expiration,
)
    requires
        store_wf(entries, expirations, next_id),
        forall|j: int| !entry_at(entries, j, e.key@),
        e.id == next_id,
        next_id < u64::MAX,
        e.expires_at == Some(d.when),
        d.id == e.id,
        d.key@ == e.key@,
        0 <= pos <= expirations.len(),
        forall|j: int|
            0 <= j < pos ==> deadline_before(
                (#[trigger] expirations[j]).when,
                expirations[j].id,
                d.when,
                d.id,
            ),
        forall|j: int|
            pos <= j < expirations.len() ==> deadline_before(
                d.when,
                d.id,
                (#[trigger] expirations[j]).when,
                expirations[j].id,
            ),
    ensures
        store_wf(entries.push(e), expirations.insert(pos, d), (next_id + 1) as u64),
        entries_map(entries.push(e)) == entries_map(entries).insert(e.key@, e@),
        deadlines_map(expirations.insert(pos, d)) == deadlines_map(expirations).insert(
            (d.when, d.id),
            d.key@,
        ),
{
    let after = entries.push(e);
    let later = expirations.insert(pos, d);
    lemma_pushed_map(entries, e);
    lemma_inserted_deadlines(expirations, pos, d);
    lemma_insert_index(expirations, pos, d);
    assert forall|m: int| 0 <= m < later.len() implies refers(after, #[trigger] later[m]) by {
        if m == pos {
            assert(after[entries.len() as int] == e);
        } else {
            let m0 = if m < pos {
                m
            } else {
                m - 1
            };
            let x = expirations[m0];
            assert(later[m] == x);
            assert(refers(entries, x));
            let j = choose|j: int|
                0 <= j < entries.len() && (#[trigger] entries[j]).key@ == x.key@ && entries[j].id
                    == x.id && entries[j].expires_at == Some(x.when);
            assert(after[j] == entries[j]);
        }
    }
    assert forall|m: int| 0 <= m < after.len() implies referred(later, #[trigger] after[m]) by {
        if m < entries.len() {
            let x = entries[m];
            assert(after[m] == x);
            assert(referred(expirations, x));
            if let Some(when) = x.expires_at {
                let q = choose|q: int|
                    0 <= q < expirations.len() && (#[trigger] expirations[q]).when == when
                        && expirations[q].id == x.id && expirations[q].key@ == x.key@;
                let q2 = if q < pos {
                    q
                } else {
                    q + 1
                };
                assert(later[q2] == expirations[q]);
            }
        } else {
            assert(later[pos] == d);
        }
    }
}

/// The first of deadlines that rise is the soonest.
proof fn lemma_first_is_soonest(expirations: Seq<Expiration>)
    requires
        forall|i: int, j: int|
            0 <= i < j < expirations.len() ==> deadline_before(
                (#[trigger] expirations[i]).when,
                expirations[i].id,
                (#[trigger] expirations[j]).when,
                expirations[j].id,
            ),
        expirations.len() > 0,
    ensures
        is_soonest(deadlines_map(expirations), Some(expirations[0].when)),
{
    lemma_deadline(expirations, 0);
    let when = expirations[0].when;
    assert(deadlines_map(expirations).contains_key((when, expirations[0].id)));
    assert forall|d: (u128, u64)| deadlines_map(expirations).contains_key(d) implies when
        <= d.0 by {
        let i = choose|i: int| deadline_at(expirations, i, d.0, d.1);
        if i > 0 {
            assert(deadline_before(
                expirations[0].when,
                expirations[0].id,
                expirations[i].when,
                expirations[i].id,
            ));
        }
    }
    let m = deadlines_map(expirations);
    assert(m.contains_key((when, expirations[0].id)));
    assert(exists|id: u64| m.contains_key((when, id)));
    assert(forall|d: (u128, u64)| m.contains_key(d) ==> when <= d.0);
    let soonest = Some(when);
    assert(soonest matches Some(w) && w == when);
    assert(is_soonest(m, soonest));
}

/// In a store in order whose soonest deadline is still to come at the time
/// `now`, every deadline is still to come, and every entry lives on.
proof fn lemma_all_live(entries: Seq<Entry>, expirations: Seq<Expiration>, next_id: u64, now: u64)
    requires
        store_wf(entries, expirations, next_id),
        expirations.len() == 0 || expirations[0].when > now,
    ensures
        forall|d: (u128, u64)| deadlines_map(expirations).contains_key(d) ==> d.0 > now,
        forall|key: Seq<char>| #[trigger]
            entries_map(entries).contains_key(key) ==> lives(entries_map(entries)[key], now),
{
    assert forall|q: int| 0 <= q < expirations.len() implies (#[trigger] expirations[q]).when
        > now by {
        if q > 0 {
            assert(deadline_before(
                expirations[0].when,
                expirations[0].id,
                expirations[q].when,
                expirations[q].id,
            ));
        }
    }
    assert forall|d: (u128, u64)| deadlines_map(expirations).contains_key(d) implies d.0
        > now by {
        let i = choose|i: int| deadline_at(expirations, i, d.0, d.1);
        assert(expirations[i].when > now);
    }
    assert forall|key: Seq<char>| #[trigger]
        entries_map(entries).contains_key(key) implies lives(entries_map(entries)[key], now) by {
        let j = choose|j: int| entry_at(entries, j, key);
        lemma_entry(entries, j);
        assert(referred(expirations, entries[j]));
        if let Some(when) = entries[j].expires_at {
            let q = choose|q: int|
                0 <= q < expirations.len() && (#[trigger] expirations[q]).when == when
                    && expirations[q].id == entries[j].id && expirations[q].key@
                    == entries[j].key@;
            assert(expirations[q].when > now);
        }
    }
}

/// The deadline at an index of a store in order is that of the entry which
/// the store holds under the key of the deadline.
proof fn lemma_deadline_entry(entries: Seq<Entry>, expirations: Seq<Expiration>, next_id: u64, q: int)
    requires
        store_wf(entries, expirations, next_id),
        0 <= q < expirations.len(),
    ensures
        entries_map(entries).contains_key(expirations[q].key@),
        entries_map(entries)[expirations[q].key@].expires_at == Some(expirations[q].when),
        entries_map(entries)[expirations[q].key@].id == expirations[q].id,
{
    let d = expirations[q];
    assert(refers(entries, d));
    let j = choose|j: int|
        0 <= j < entries.len() && (#[trigger] entries[j]).key@ == d.key@ && entries[j].id == d.id
            && entries[j].expires_at == Some(d.when);
    lemma_entry(entries, j);
}

impl Db {
    /// The entries: each key with what is stored under it.
    pub closed spec fn entries(&self) -> Map<Seq<char>, EntryView> {
        entries_map(self.entries@)
    }

    /// The deadlines: each time and number with the key of the entry that
    /// expires then.
    pub closed spec fn expirations(&self) -> Map<(u128, u64), Seq<char>> {
        deadlines_map(self.expirations@)
    }

    /// The names of the channels that were subscribed to.
    pub closed spec fn channels(&self) -> Set<Seq<char>> {
        channel_names(self.pub_sub@)
    }

    /// The number that the next `set` gets.
    pub closed spec fn next_id(&self) -> u64 {
        self.next_id
    }

    /// Whether the store is shutting down.
    pub closed spec fn spec_is_shutdown(&self) -> bool {
        self.shutdown
    }

    /// Whether the store is in order: what its parts must hold of each other
    /// at any time.
    pub closed spec fn wf(&self) -> bool {
        &&& store_wf(self.entries@, self.expirations@, self.next_id)
        &&& forall|i: int, j: int|
            0 <= i < j < self.pub_sub@.len() ==> (#[trigger] self.pub_sub@[i]).name@ != (
            #[trigger] self.pub_sub@[j]).name@
    }

    /// Whether `other` holds what this store holds.
    pub open spec fn same_as(&self, other: Db) -> bool {
        &&& self.entries() == other.entries()
        &&& self.expirations() == other.expirations()
        &&& self.channels() == other.channels()
        &&& self.next_id() == other.next_id()
        &&& self.spec_is_shutdown() == other.spec_is_shutdown()
    }

    /// Whether `after` is this store after `value` was stored under `key` at
    /// the time `now`, to live for `expire`: the entry is there under the
    /// next number, in place of what was under the key; its deadline is in
    /// the index and that of the entry it replaced is not; the next number
    /// is one more; the rest is as it was.
    pub open spec fn spec_set(
        &self,
        after: Db,
        key: Seq<char>,
        value: Seq<u8>,
        expire: Option<Expiry>,
        now: u64,
    ) -> bool {
        &&& after.entries() == self.entries().insert(
            key,
            EntryView { id: self.next_id(), data: value, expires_at: deadline_of(expire, now) },
        )
        &&& after.expirations() == deadlines_after_set(
            self.entries(),
            self.expirations(),
            key,
            self.next_id(),
            deadline_of(expire, now),
        )
        &&& after.next_id() == self.next_id() + 1
        &&& after.channels() == self.channels()
        &&& after.spec_is_shutdown() == self.spec_is_shutdown()
    }

    /// An empty store.
    pub fn new() -> (db: Db)
        ensures
            db.wf(),
            db.entries() == Map::<Seq<char>, EntryView>::empty(),
            db.expirations() == Map::<(u128, u64), Seq<char>>::empty(),
            db.channels() == Set::<Seq<char>>::empty(),
            db.next_id() == 0,
            !db.spec_is_shutdown(),
    {
        let db = Db {
            entries: Vec::new(),
            pub_sub: Vec::new(),
            expirations: Vec::new(),
            next_id: 0,
            shutdown: false,
        };
        assert(db.entries() =~= Map::<Seq<char>, EntryView>::empty());
        assert(db.expirations() =~= Map::<(u128, u64), Seq<char>>::empty());
        assert(db.channels() =~= Set::<Seq<char>>::empty());
        db
    }

    /// The index of the entry under `key`, if there is one.
    fn find_entry(&self, key: &str) -> (r: Option<usize>)
        ensures
            match r {
                Some(i) => entry_at(self.entries@, i as int, key@),
                None => forall|i: int| !entry_at(self.entries@, i, key@),
            },
    {
        let mut i: usize = 0;
        while i < self.entries.len()
            invariant
                i <= self.entries.len(),
                forall|j: int| 0 <= j < i ==> !entry_at(self.entries@, j, key@),
            decreases self.entries.len() - i,
        {
            if text_eq(self.entries[i].key.as_str(), key) {
                return Some(i);
            }
            i += 1;
        }
        None
    }

    /// Whether the store has a number left for one more `set`.
    pub fn can_set(&self) -> (r: bool)
        ensures
            r == (self.next_id() < u64::MAX),
    {
        self.next_id < u64::MAX
    }

    /// The value stored under `key`, if there is one. An entry whose deadline
    /// has passed is still found until it is purged.
    pub fn get(&self, key: &str) -> (r: Option<Vec<u8>>)
        requires
            self.wf(),
        ensures
            match r {
                Some(data) => self.entries().contains_key(key@) && data@ == self.entries()[key@].data,
                None => !self.entries().contains_key(key@),
            },
    {
        match self.find_entry(key) {
            Some(i) => {
                proof {
                    lemma_entry(self.entries@, i as int);
                }
                Some(self.entries[i].data.clone())
            },
            None => None,
        }
    }

    /// Whether the store is shutting down.
    pub fn is_shutdown(&self) -> (r: bool)
        ensures
            r == self.spec_is_shutdown(),
    {
        self.shutdown
    }

    /// Marks the store as shutting down, for the task that purges to see.
    pub fn shutdown_purge_task(&mut self)
        requires
            old(self).wf(),
        ensures
            final(self).wf(),
            final(self).spec_is_shutdown(),
            final(self).entries() == old(self).entries(),
            final(self).expirations() == old(self).expirations(),
            final(self).channels() == old(self).channels(),
            final(self).next_id() == old(self).next_id(),
    {
        self.shutdown = true;
    }

    /// The soonest deadline of the store, if it has one.
    pub fn next_expiration(&self) -> (r: Option<u128>)
        requires
            self.wf(),
        ensures
            is_soonest(self.expirations(), r),
    {
        if self.expirations.len() == 0 {
            assert(self.expirations() =~= Map::<(u128, u64), Seq<char>>::empty());
            None
        } else {
            let when = self.expirations[0].when;
            proof {
                lemma_first_is_soonest(self.expirations@);
            }
            Some(when)
        }
    }

    /// The index of the deadline for the time `when` and the number `id`.
    fn find_deadline(&self, when: u128, id: u64) -> (r: usize)
        requires
            exists|i: int| deadline_at(self.expirations@, i, when, id),
        ensures
            deadline_at(self.expirations@, r as int, when, id),
    {
        let mut i: usize = 0;
        while i < self.expirations.len()
            invariant
                i <= self.expirations.len(),
                forall|j: int| 0 <= j < i ==> !deadline_at(self.expirations@, j, when, id),
                exists|j: int| deadline_at(self.expirations@, j, when, id),
            decreases self.expirations.len() - i,
        {
            if self.expirations[i].when == when && self.expirations[i].id == id {
                return i;
            }
            i += 1;
        }
        proof {
            let j = choose|j: int| deadline_at(self.expirations@, j, when, id);
            assert(false);
        }
        0
    }

    /// The index at which the deadline for the time `when` and the number
    /// `id` belongs: after those that come before it.
    fn insert_position(&self, when: u128, id: u64) -> (r: usize)
        ensures
            r <= self.expirations@.len(),
            forall|j: int|
                0 <= j < r ==> deadline_before(
                    (#[trigger] self.expirations@[j]).when,
                    self.expirations@[j].id,
                    when,
                    id,
                ),
            r < self.expirations@.len() ==> !deadline_before(
                self.expirations@[r as int].when,
                self.expirations@[r as int].id,
                when,
                id,
            ),
    {
        let mut i: usize = 0;
        while i < self.expirations.len()
            invariant
                i <= self.expirations.len(),
                forall|j: int|
                    0 <= j < i ==> deadline_before(
                        (#[trigger] self.expirations@[j]).when,
                        self.expirations@[j].id,
                        when,
                        id,
                    ),
            decreases self.expirations.len() - i,
        {
            let d = &self.expirations[i];
            if !(d.when < when || (d.when == when && d.id < id)) {
                return i;
            }
            i += 1;
        }
        i
    }

    /// Takes the entry under `key` out of the store, with its deadline.
    fn take_out(&mut self, key: &str)
        requires
            old(self).wf(),
        ensures
            final(self).wf(),
            final(self).entries() == old(self).entries().remove(key@),
            final(self).expirations() == deadlines_after_set(
                old(self).entries(),
                old(self).expirations(),
                key@,
                0,
                None,
            ),
            forall|j: int| !entry_at(final(self).entries@, j, key@),
            final(self).next_id == old(self).next_id,
            final(self).pub_sub@ == old(self).pub_sub@,
            final(self).shutdown == old(self).shutdown,
            old(self).entries().contains_key(key@) && old(self).entries()[key@].expires_at is Some
                ==> final(self).expirations@.len() == old(self).expirations@.len() - 1,
    {
        let ghost entries0 = self.entries@;
        let ghost deadlines0 = self.expirations@;
        match self.find_entry(key) {
            Some(i) => {
                proof {
                    lemma_entry(entries0, i as int);
                    assert(referred(deadlines0, entries0[i as int]));
                }
                let prior = self.entries.remove(i);
                match prior.expires_at {
                    Some(when) => {
                        proof {
                            let q = choose|q: int|
                                0 <= q < deadlines0.len() && (#[trigger] deadlines0[q]).when == when
                                    && deadlines0[q].id == prior.id && deadlines0[q].key@
                                    == prior.key@;
                            assert(self.expirations@ == deadlines0);
                            assert(deadline_at(self.expirations@, q, when, prior.id));
                        }
                        let k = self.find_deadline(when, prior.id);
                        self.expirations.remove(k);
                        proof {
                            lemma_remove_expiring(
                                entries0,
                                deadlines0,
                                self.next_id,
                                i as int,
                                k as int,
                            );
                        }
                    },
                    None => {
                        proof {
                            lemma_remove_plain(entries0, deadlines0, self.next_id, i as int);
                        }
                    },
                }
            },
            None => {
                assert(!entries_map(entries0).contains_key(key@));
                assert(entries_map(entries0) =~= entries_map(entries0).remove(key@));
            },
        }
    }

    /// Puts a new entry into the store, under a key that is not there, with
    /// the next number.
    fn put_in(&mut self, key: String, value: Vec<u8>, expires_at: Option<u128>)
        requires
            old(self).wf(),
            old(self).next_id < u64::MAX,
            forall|j: int| !entry_at(old(self).entries@, j, key@),
        ensures
            final(self).wf(),
            final(self).entries() == old(self).entries().insert(
                key@,
                EntryView { id: old(self).next_id, data: value@, expires_at },
            ),
            final(self).expirations() == (match expires_at {
                Some(when) => old(self).expirations().insert((when, old(self).next_id), key@),
                None => old(self).expirations(),
            }),
            final(self).next_id == old(self).next_id + 1,
            final(self).pub_sub@ == old(self).pub_sub@,
            final(self).shutdown == old(self).shutdown,
    {
        let id = self.next_id;
        let ghost entries1 = self.entries@;
        let ghost deadlines1 = self.expirations@;
        match expires_at {
            Some(when) => {
                let pos = self.insert_position(when, id);
                let deadline = Expiration { when, id, key: key.clone() };
                let entry = Entry { key, id, data: value, expires_at };
                proof {
                    assert forall|j: int| pos <= j < deadlines1.len() implies deadline_before(
                        when,
                        id,
                        (#[trigger] deadlines1[j]).when,
                        deadlines1[j].id,
                    ) by {
                        assert(refers(entries1, deadlines1[j]));
                        assert(refers(entries1, deadlines1[pos as int]));
                        if pos < j {
                            assert(deadline_before(
                                deadlines1[pos as int].when,
                                deadlines1[pos as int].id,
                                deadlines1[j].when,
                                deadlines1[j].id,
                            ));
                        }
                    }
                    lemma_push_expiring(entries1, deadlines1, id, entry, pos as int, deadline);
                }
                self.entries.push(entry);
                self.expirations.insert(pos, deadline);
            },
            None => {
                let entry = Entry { key, id, data: value, expires_at };
                proof {
                    lemma_push_plain(entries1, deadlines1, id, entry);
                }
                self.entries.push(entry);
            },
        }
        self.next_id = id + 1;
    }

    /// Stores `value` under `key`, in place of what was there, at the time
    /// `now`; with `expire` the entry expires that long after `now`. Returns
    /// whether the task that purges is to be woken: whether the entry has a
    /// deadline that comes before every deadline the store had.
    pub fn set(&mut self, key: String, value: Vec<u8>, expire: Option<Expiry>, now: u64) -> (notify:
        bool)
        requires
            old(self).wf(),
            old(self).next_id() < u64::MAX,
        ensures
            final(self).wf(),
            old(self).spec_set(*final(self), key@, value@, expire, now),
            notify == wakes(old(self).expirations(), deadline_of(expire, now)),
    {
        let expires_at: Option<u128> = match expire {
            Some(expiry) => Some(now as u128 + expiry.as_millis()),
            None => None,
        };
        let notify = match expires_at {
            Some(when) => match self.next_expiration() {
                Some(soonest) => soonest > when,
                None => true,
            },
            None => false,
        };
        self.take_out(key.as_str());
        self.put_in(key, value, expires_at);
        proof {
            assert(self.entries() =~= old(self).entries().insert(
                key@,
                EntryView {
                    id: old(self).next_id(),
                    data: value@,
                    expires_at: deadline_of(expire, now),
                },
            ));
        }
        notify
    }

    /// Takes out of the store every entry whose deadline has come at the
    /// time `now`, and gives the soonest deadline that is left, for the task
    /// that purges to sleep until then. A store that is shutting down is
    /// left as it is, and gives no deadline.
    pub fn purge_expired_keys(&mut self, now: u64) -> (r: Option<u128>)
        requires
            old(self).wf(),
        ensures
            final(self).wf(),
            final(self).next_id() == old(self).next_id(),
            final(self).channels() == old(self).channels(),
            final(self).spec_is_shutdown() == old(self).spec_is_shutdown(),
            old(self).spec_is_shutdown() ==> {
                &&& r is None
                &&& final(self).entries() == old(self).entries()
                &&& final(self).expirations() == old(self).expirations()
            },
            !old(self).spec_is_shutdown() ==> {
                &&& final(self).entries() == unexpired(old(self).entries(), now)
                &&& final(self).expirations() == pending(old(self).expirations(), now)
                &&& is_soonest(final(self).expirations(), r)
            },
    {
        if self.shutdown {
            return None;
        }
        let ghost entries0 = self.entries();
        let ghost deadlines0 = self.expirations();
        loop
            invariant
                self.wf(),
                self.next_id == old(self).next_id,
                self.pub_sub@ == old(self).pub_sub@,
                self.shutdown == old(self).shutdown,
                !self.shutdown,
                entries0 == old(self).entries(),
                deadlines0 == old(self).expirations(),
                forall|key: Seq<char>| #[trigger]
                    self.entries().contains_key(key) ==> entries0.contains_key(key)
                        && self.entries()[key] == entries0[key],
                forall|key: Seq<char>| #[trigger]
                    entries0.contains_key(key) && lives(entries0[key], now)
                        ==> self.entries().contains_key(key),
                forall|d: (u128, u64)| #[trigger]
                    self.expirations().contains_key(d) ==> deadlines0.contains_key(d)
                        && self.expirations()[d] == deadlines0[d],
                forall|d: (u128, u64)| #[trigger]
                    deadlines0.contains_key(d) && d.0 > now ==> self.expirations().contains_key(d),
            decreases self.expirations@.len(),
        {
            if self.expirations.len() == 0 {
                proof {
                    lemma_all_live(self.entries@, self.expirations@, self.next_id, now);
                    assert(self.expirations() =~= Map::<(u128, u64), Seq<char>>::empty());
                    assert(self.entries() =~= unexpired(entries0, now));
                    assert(self.expirations() =~= pending(deadlines0, now));
                }
                return None;
            }
            let when = self.expirations[0].when;
            if when > now as u128 {
                proof {
                    lemma_all_live(self.entries@, self.expirations@, self.next_id, now);
                    lemma_first_is_soonest(self.expirations@);
                    assert(self.entries() =~= unexpired(entries0, now));
                    assert(self.expirations() =~= pending(deadlines0, now));
                }
                return Some(when);
            }
            let key = self.expirations[0].key.clone();
            proof {
                lemma_deadline_entry(self.entries@, self.expirations@, self.next_id, 0);
                lemma_deadline(self.expirations@, 0);
            }
            let ghost id = self.expirations@[0].id;
            let ghost entries1 = self.entries();
            let ghost deadlines1 = self.expirations();
            self.take_out(key.as_str());
            proof {
                assert(self.entries() == entries1.remove(key@));
                assert(self.expirations() == deadlines1.remove((when, id)));
                assert(!lives(entries0[key@], now));
            }
        }
    }

    /// The keys that expire and the deadlines go together: in a store that
    /// is in order, each entry with a deadline has just that deadline in the
    /// index, under its own number and for its own key; each deadline of the
    /// index is that of the entry under its key; so the keys that the index
    /// reaches are the keys of the entries that expire. No number is that of
    /// two entries, and each is below the next number.
    pub proof fn law_deadlines_match_entries(&self)
        requires
            self.wf(),
        ensures
            forall|key: Seq<char>| #[trigger]
                self.entries().contains_key(key) ==> (self.entries()[key].expires_at matches Some(
                    when,
                ) ==> self.expirations().contains_key((when, self.entries()[key].id))
                    && self.expirations()[(when, self.entries()[key].id)] == key),
            forall|d: (u128, u64)| #[trigger]
                self.expirations().contains_key(d) ==> {
                    &&& self.entries().contains_key(self.expirations()[d])
                    &&& self.entries()[self.expirations()[d]].id == d.1
                    &&& self.entries()[self.expirations()[d]].expires_at == Some(d.0)
                },
            self.expirations().values() == Set::new(
                |key: Seq<char>|
                    self.entries().contains_key(key) && self.entries()[key].expires_at is Some,
            ),
            forall|k1: Seq<char>, k2: Seq<char>|
                self.entries().contains_key(k1) && self.entries().contains_key(k2) && k1 != k2
                    ==> self.entries()[k1].id != self.entries()[k2].id,
            forall|key: Seq<char>| #[trigger]
                self.entries().contains_key(key) ==> self.entries()[key].id < self.next_id(),
    {
        let entries = self.entries@;
        let deadlines = self.expirations@;
        assert forall|key: Seq<char>| #[trigger] self.entries().contains_key(key) implies (
        self.entries()[key].expires_at matches Some(when) ==> self.expirations().contains_key(
            (when, self.entries()[key].id),
        ) && self.expirations()[(when, self.entries()[key].id)] == key) by {
            let j = choose|j: int| entry_at(entries, j, key);
            lemma_entry(entries, j);
            assert(referred(deadlines, entries[j]));
            if let Some(when) = entries[j].expires_at {
                let q = choose|q: int|
                    0 <= q < deadlines.len() && (#[trigger] deadlines[q]).when == when
                        && deadlines[q].id == entries[j].id && deadlines[q].key@ == entries[j].key@;
                lemma_deadline(deadlines, q);
            }
        }
        assert forall|d: (u128, u64)| #[trigger] self.expirations().contains_key(d) implies {
            &&& self.entries().contains_key(self.expirations()[d])
            &&& self.entries()[self.expirations()[d]].id == d.1
            &&& self.entries()[self.expirations()[d]].expires_at == Some(d.0)
        } by {
            let q = choose|q: int| deadline_at(deadlines, q, d.0, d.1);
            lemma_deadline(deadlines, q);
            lemma_deadline_entry(entries, deadlines, self.next_id, q);
        }
        let expiring = Set::new(
            |key: Seq<char>|
                self.entries().contains_key(key) && self.entries()[key].expires_at is Some,
        );
        assert forall|key: Seq<char>| self.expirations().values().contains(key)
            == expiring.contains(key) by {
            if self.expirations().values().contains(key) {
                let d = choose|d: (u128, u64)|
                    self.expirations().contains_key(d) && self.expirations()[d] == key;
                assert(self.expirations().contains_key(d));
            }
            if expiring.contains(key) {
                assert(self.entries().contains_key(key));
                let d = (self.entries()[key].expires_at->0, self.entries()[key].id);
                assert(self.expirations().contains_key(d) && self.expirations()[d] == key);
            }
        }
        assert(self.expirations().values() =~= expiring);
        assert forall|k1: Seq<char>, k2: Seq<char>|
            self.entries().contains_key(k1) && self.entries().contains_key(k2) && k1
                != k2 implies self.entries()[k1].id != self.entries()[k2].id by {
            let a = choose|j: int| entry_at(entries, j, k1);
            let b = choose|j: int| entry_at(entries, j, k2);
            lemma_entry(entries, a);
            lemma_entry(entries, b);
            if a < b {
                assert(entries[a].id != entries[b].id);
            } else {
                assert(entries[b].id != entries[a].id);
            }
        }
        assert forall|key: Seq<char>| #[trigger] self.entries().contains_key(key) implies self.entries()[key].id
            < self.next_id() by {
            let j = choose|j: int| entry_at(entries, j, key);
            lemma_entry(entries, j);
        }
    }

    /// The index of the channel of the name `name`, if there is one.
    fn find_channel(&self, name: &str) -> (r: Option<usize>)
        ensures
            match r {
                Some(i) => channel_at(self.pub_sub@, i as int, name@),
                None => forall|i: int| !channel_at(self.pub_sub@, i, name@),
            },
    {
        let mut i: usize = 0;
        while i < self.pub_sub.len()
            invariant
                i <= self.pub_sub.len(),
                forall|j: int| 0 <= j < i ==> !channel_at(self.pub_sub@, j, name@),
            decreases self.pub_sub.len() - i,
        {
            if text_eq(self.pub_sub[i].name.as_str(), name) {
                return Some(i);
            }
            i += 1;
        }
        None
    }

    /// A receiver for the messages of the channel `key`. The channel is made
    /// if it is not there yet, and stays for as long as the store.
    pub fn subscribe(&mut self, key: String) -> (r: Receiver<Vec<u8>>)
        requires
            old(self).wf(),
        ensures
            final(self).wf(),
            final(self).channels() == old(self).channels().insert(key@),
            final(self).entries() == old(self).entries(),
            final(self).expirations() == old(self).expirations(),
            final(self).next_id() == old(self).next_id(),
            final(self).spec_is_shutdown() == old(self).spec_is_shutdown(),
    {
        match self.find_channel(key.as_str()) {
            Some(i) => {
                assert(channel_at(self.pub_sub@, i as int, key@));
                assert(self.channels() =~= self.channels().insert(key@));
                new_receiver(&self.pub_sub[i].sender)
            },
            None => {
                let (sender, receiver) = open_channel(CHANNEL_CAPACITY);
                let ghost name = key@;
                self.pub_sub.push(Channel { name: key, sender });
                proof {
                    let before = old(self).pub_sub@;
                    let after = self.pub_sub@;
                    let last = after.len() - 1;
                    assert forall|n: Seq<char>|
                        channel_names(after).contains(n) == channel_names(before).insert(
                            name,
                        ).contains(n) by {
                        if channel_names(before).insert(name).contains(n) {
                            if n == name {
                                assert(channel_at(after, last, n));
                            } else {
                                let i = choose|i: int| channel_at(before, i, n);
                                assert(channel_at(after, i, n));
                            }
                        }
                        if channel_names(after).contains(n) {
                            let i = choose|i: int| channel_at(after, i, n);
                            if i < last {
                                assert(channel_at(before, i, n));
                            }
                        }
                    }
                    assert(channel_names(after) =~= channel_names(before).insert(name));
                    assert forall|i: int, j: int| 0 <= i < j < after.len() implies (
                    #[trigger] after[i]).name@ != (#[trigger] after[j]).name@ by {
                        if j == last {
                            assert(!channel_at(before, i, name));
                        }
                    }
                }
                receiver
            },
        }
    }

    /// Sends `value` to the channel `key`, and reports the number of
    /// subscribers that it went to: none where nobody ever subscribed to the
    /// channel, else what `delivered` makes of the outcome of the sending.
    pub fn publish(&self, key: &str, value: Vec<u8>) -> (r: usize)
        ensures
            !self.channels().contains(key@) ==> r == 0,
    {
        match self.find_channel(key) {
            Some(i) => delivered(send(&self.pub_sub[i].sender, value)),
            None => 0,
        }
    }
}

/// Whether `soonest` is the soonest time among the deadlines `expirations`:
/// none where there is no deadline, else the time of one that none comes
/// before.
pub open spec fn is_soonest(expirations: Map<(u128, u64), Seq<char>>, soonest: Option<u128>) -> bool {
    match soonest {
        None => expirations == Map::<(u128, u64), Seq<char>>::empty(),
        Some(when) => {
            &&& exists|id: u64| expirations.contains_key((when, id))
            &&& forall|d: (u128, u64)| expirations.contains_key(d) ==> when <= d.0
        },
    }
}

} // verus!