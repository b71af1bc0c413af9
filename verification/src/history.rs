//! What a sequence of events does to the updates of a node: the laws that
//! hold over many cycles and messages, not only over one.

use vstd::prelude::*;
use crate::config::{UpdateExpirationMode, UpdateExpirationValue};
use crate::digest::digest_of;
use crate::gossip::{
    accepted,
    admitted_updates,
    asked_for,
    content_reply,
    takes_headers,
    GossipState,
    found_updates,
    request_entries,
    wanted_digests,
    lemma_accepted,
    lemma_known_not_delivered,
    update_digests,
    updates_after_content,
};
use crate::message::gossip::{distinct_keys, keys_of, ContentMessageView, HeaderMessageView};
use crate::message::MessageType;
use crate::update::{
    digests_of,
    expired_digests,
    lemma_expired_digests,
    lemma_inserted_wf,
    lemma_live_entries,
    lemma_pushed_wf,
    lemma_sweep_keeps_known,
    lemma_sweep_partition,
    lemma_swept_wf,
    live_entries,
    StoreState,
    UpdateView,
    MAX_EXPIRED_MARGIN,
    MAX_EXPIRED_SIZE,
};

verus! {

/// What can happen to the updates of a node.
pub ghost enum StoreEvent {
    /// The application submits content at a time.
    Submit { content: Seq<u8>, now: u128 },
    /// A gossip cycle finds a partner at a time; with `push` the active
    /// updates are advertised.
    Cycle { push: bool, now: u128 },
    /// A content message arrives at a time.
    Content { message: ContentMessageView, now: u128 },
}

/// The updates of a node after an event.
pub open spec fn after_event(store: StoreState, event: StoreEvent) -> StoreState {
    match event {
        StoreEvent::Submit { content, now } => if store.admission(digest_of(content)) is Ok {
            store.inserted(UpdateView { content, digest: digest_of(content) }, now)
        } else {
            store
        },
        StoreEvent::Cycle { push, now } => (if push {
            store.pushed()
        } else {
            store
        }).swept(now),
        StoreEvent::Content { message, now } => updates_after_content(store, message, now),
    }
}

/// The updates that an event makes the node admit for its handler.
pub open spec fn admitted_by(store: StoreState, event: StoreEvent) -> Seq<UpdateView> {
    match event {
        StoreEvent::Content { message, now } => admitted_updates(store, message, now),
        _ => Seq::empty(),
    }
}

/// The updates of a node after a sequence of events.
pub open spec fn after_events(store: StoreState, events: Seq<StoreEvent>) -> StoreState
    decreases events.len(),
{
    if events.len() == 0 {
        store
    } else {
        after_event(after_events(store, events.drop_last()), events.last())
    }
}

/// The store on which the cut of the expired digests acts in the course of
/// an event, where the event sweeps.
pub open spec fn swept_in(store: StoreState, event: StoreEvent) -> Option<StoreState> {
    match event {
        StoreEvent::Submit { .. } => None,
        StoreEvent::Cycle { push, now } => Some(
            (if push {
                store.pushed()
            } else {
                store
            }).expired_moved(now),
        ),
        StoreEvent::Content { message, now } => if message.message_type == MessageType::Response {
            Some(accepted(store, message.content, now).0.expired_moved(now))
        } else {
            None
        },
    }
}

/// Whether the cut of the expired digests, in the course of the event, drops
/// the digest `d`.
pub open spec fn cut_drops(store: StoreState, event: StoreEvent, d: Seq<char>) -> bool {
    match swept_in(store, event) {
        Some(moved) => moved.removed.len() > MAX_EXPIRED_SIZE + MAX_EXPIRED_MARGIN && moved.removed.take(
            MAX_EXPIRED_MARGIN as int,
        ).contains(d),
        None => false,
    }
}

/// Every event keeps the invariant of the store.
pub proof fn lemma_after_event_wf(store: StoreState, event: StoreEvent)
    requires
        store.wf(),
    ensures
        after_event(store, event).wf(),
        after_event(store, event).mode == store.mode,
{
    match event {
        StoreEvent::Submit { content, now } => {
            if store.admission(digest_of(content)) is Ok {
                lemma_inserted_wf(store, UpdateView { content, digest: digest_of(content) }, now);
            }
        },
        StoreEvent::Cycle { push, now } => {
            if push {
                lemma_pushed_wf(store);
                lemma_swept_wf(store.pushed(), now);
            } else {
                lemma_swept_wf(store, now);
            }
        },
        StoreEvent::Content { message, now } => {
            lemma_accepted(store, message.content, now);
            lemma_swept_wf(accepted(store, message.content, now).0, now);
        },
    }
}

/// Every sequence of events keeps the invariant of the store.
pub proof fn lemma_after_events_wf(store: StoreState, events: Seq<StoreEvent>)
    requires
        store.wf(),
    ensures
        after_events(store, events).wf(),
        after_events(store, events).mode == store.mode,
    decreases events.len(),
{
    if events.len() > 0 {
        lemma_after_events_wf(store, events.drop_last());
        lemma_after_event_wf(after_events(store, events.drop_last()), events.last());
    }
}

/// A digest that the node knows is not admitted by an event, and the node
/// still knows it afterwards unless the cut of the event has dropped it.
pub proof fn lemma_known_through_event(store: StoreState, event: StoreEvent, d: Seq<char>)
    requires
        store.wf(),
        store.knows(d),
    ensures
        !update_digests(admitted_by(store, event)).contains(d),
        !cut_drops(store, event, d) ==> after_event(store, event).knows(d),
{
    match event {
        StoreEvent::Submit { content, now } => {
            if store.admission(digest_of(content)) is Ok {
                let after = store.inserted(UpdateView { content, digest: digest_of(content) }, now);
                if store.is_active(d) {
                    let x = choose|x: int| 0 <= x < store.active.len() && digests_of(store.active)[x] == d;
                    assert(digests_of(after.active)[x] == d);
                }
            }
        },
        StoreEvent::Cycle { push, now } => {
            if push {
                lemma_pushed_wf(store);
                lemma_sweep_keeps_known(store.pushed(), now, d);
            } else {
                lemma_sweep_keeps_known(store, now, d);
            }
        },
        StoreEvent::Content { message, now } => {
            lemma_accepted(store, message.content, now);
            lemma_known_not_delivered(store, message.content, now, d);
            lemma_sweep_keeps_known(accepted(store, message.content, now).0, now, d);
        },
    }
}

/// Whether the cut of the expired digests spares the digest `d` in the
/// course of every one of the events.
pub open spec fn never_cut(store: StoreState, events: Seq<StoreEvent>, d: Seq<char>) -> bool {
    forall|k: int|
        0 <= k < events.len() ==> !cut_drops(after_events(store, events.take(k)), #[trigger] events[k], d)
}

/// An update is handed to the handler once at most, and never to the handler
/// of the node that submitted it. Whatever events follow the moment at which
/// the node comes to know a digest, by its own submission or by a message,
/// none of them makes the node admit that digest again, and the node still
/// knows it at the end. This holds as long as the cut of the expired digests
/// does not drop the digest.
pub proof fn lemma_known_is_never_admitted(store: StoreState, events: Seq<StoreEvent>, d: Seq<char>)
    requires
        store.wf(),
        store.knows(d),
        never_cut(store, events, d),
    ensures
        after_events(store, events).knows(d),
        forall|k: int|
            0 <= k < events.len() ==> !update_digests(
                admitted_by(after_events(store, events.take(k)), #[trigger] events[k]),
            ).contains(d),
    decreases events.len(),
{
    if events.len() > 0 {
        let front = events.drop_last();
        let last = events.len() - 1;
        assert forall|k: int| 0 <= k < front.len() implies !cut_drops(
            after_events(store, front.take(k)),
            #[trigger] front[k],
            d,
        ) by {
            assert(front.take(k) =~= events.take(k));
            assert(front[k] == events[k]);
        }
        lemma_known_is_never_admitted(store, front, d);
        lemma_after_events_wf(store, front);
        assert(events.take(last) =~= front);
        assert(!cut_drops(after_events(store, events.take(last)), events[last], d));
        lemma_known_through_event(after_events(store, front), events.last(), d);
        assert forall|k: int| 0 <= k < events.len() implies !update_digests(
            admitted_by(after_events(store, events.take(k)), #[trigger] events[k]),
        ).contains(d) by {
            if k < last {
                assert(front.take(k) =~= events.take(k));
                assert(front[k] == events[k]);
            }
        }
    }
}

/// A submission that succeeds and an update that a message makes the node
/// admit both leave the node knowing the digest, which is where
/// [`lemma_known_is_never_admitted`] starts.
pub proof fn lemma_admitted_is_known(store: StoreState, event: StoreEvent, d: Seq<char>)
    requires
        store.wf(),
        match event {
            StoreEvent::Submit { content, now } => store.admission(digest_of(content)) is Ok && d == digest_of(
                content,
            ),
            _ => update_digests(admitted_by(store, event)).contains(d),
        },
        !cut_drops(store, event, d),
    ensures
        after_event(store, event).knows(d),
{
    match event {
        StoreEvent::Submit { content, now } => {
            let after = store.inserted(UpdateView { content, digest: digest_of(content) }, now);
            assert(digests_of(after.active)[store.active.len() as int] == d);
        },
        StoreEvent::Cycle { push, now } => {},
        StoreEvent::Content { message, now } => {
            lemma_accepted(store, message.content, now);
            let (middle, admitted) = accepted(store, message.content, now);
            let k = choose|k: int| 0 <= k < admitted.len() && update_digests(admitted)[k] == d;
            assert(middle.is_active(admitted[k].digest));
            lemma_sweep_keeps_known(middle, now, d);
        },
    }
}

/// Whether the expired digests have room for all active updates, so that no
/// cut takes place as long as nothing new is admitted.
pub open spec fn has_room(store: StoreState) -> bool {
    store.removed.len() + store.active.len() <= MAX_EXPIRED_SIZE + MAX_EXPIRED_MARGIN
}

/// How many advertisements the active update with digest `d` has left.
pub open spec fn pushes_left(store: StoreState, d: Seq<char>) -> u64 {
    match store.active[store.position_of(d)].expiration {
        UpdateExpirationValue::PushCount(count) => count,
        _ => 0,
    }
}

/// Gossip cycles with a partner and with push, one at each of the times.
pub open spec fn push_cycles(times: Seq<u128>) -> Seq<StoreEvent> {
    Seq::new(times.len(), |i: int| StoreEvent::Cycle { push: true, now: times[i] })
}

/// A sweep keeps or moves every entry: the entries that stay and the digests
/// that move are together as many as the entries were.
pub proof fn lemma_sweep_lengths(active: Seq<crate::update::ActiveUpdate>, now: u128)
    ensures
        live_entries(active, now).len() + expired_digests(active, now).len() == active.len(),
    decreases active.len(),
{
    if active.len() > 0 {
        lemma_sweep_lengths(active.drop_last(), now);
    }
}

/// The position of an active digest is that of the one entry that has it.
pub proof fn lemma_position_of(store: StoreState, d: Seq<char>, i: int)
    requires
        store.wf(),
        0 <= i < store.active.len(),
        store.active[i].update.digest == d,
    ensures
        store.position_of(d) == i,
        store.is_active(d),
{
    assert(digests_of(store.active)[i] == d);
    let chosen = store.position_of(d);
    let first = choose|x: int|
        0 <= x < store.active.len() && (#[trigger] store.active[x]).update.digest == d && forall|y: int|
            0 <= y < x ==> (#[trigger] store.active[y]).update.digest != d;
    assert(exists|x: int|
        0 <= x < store.active.len() && (#[trigger] store.active[x]).update.digest == d && forall|y: int|
            0 <= y < x ==> (#[trigger] store.active[y]).update.digest != d) by {
        assert forall|y: int| 0 <= y < i implies (#[trigger] store.active[y]).update.digest != d by {}
    }
    if chosen < i {
        assert(store.active[chosen].update.digest != store.active[i].update.digest);
    } else if chosen > i {
        assert(store.active[i].update.digest != store.active[chosen].update.digest);
    }
}

/// One gossip cycle with push under a push count, while the expired digests
/// have room: an update with more than one advertisement left stays active
/// with one less, an update with one or none left expires, and an expired
/// update stays expired.
pub proof fn lemma_push_cycle(store: StoreState, d: Seq<char>, now: u128)
    requires
        store.wf(),
        store.mode is PushCount,
        has_room(store),
        store.knows(d),
    ensures
        ({
            let after = after_event(store, StoreEvent::Cycle { push: true, now });
            &&& after.wf()
            &&& after.mode == store.mode
            &&& has_room(after)
            &&& if store.is_active(d) && pushes_left(store, d) > 1 {
                after.is_active(d) && !after.is_expired(d) && pushes_left(after, d) == pushes_left(store, d) - 1
            } else {
                after.is_expired(d) && !after.is_active(d)
            }
        }),
{
    let event = StoreEvent::Cycle { push: true, now };
    let pushed = store.pushed();
    let moved = pushed.expired_moved(now);
    let after = after_event(store, event);
    lemma_after_event_wf(store, event);
    lemma_pushed_wf(store);
    lemma_swept_wf(pushed, now);
    lemma_sweep_lengths(pushed.active, now);
    lemma_live_entries(pushed.active, now);
    lemma_sweep_partition(pushed.active, now);
    lemma_expired_digests(pushed.active, now);
    assert(moved.active == live_entries(pushed.active, now));
    assert(moved.removed == pushed.removed + expired_digests(pushed.active, now));
    assert(after == moved);
    if store.is_active(d) {
        let x = choose|x: int| 0 <= x < store.active.len() && digests_of(store.active)[x] == d;
        lemma_position_of(store, d, x);
        lemma_position_of(pushed, d, x);
        assert(store.active[x].expiration.fits(store.mode));
        let left = pushes_left(store, d);
        assert(store.active[x].expiration == UpdateExpirationValue::PushCount(left));
        if left > 1 {
            assert(!pushed.active[x].expiration.expired_at(now));
            assert(after.active.contains(pushed.active[x]));
            let y = choose|y: int| 0 <= y < after.active.len() && after.active[y] == pushed.active[x];
            lemma_position_of(after, d, y);
        } else {
            assert(pushed.active[x].expiration.expired_at(now));
            let gone = expired_digests(pushed.active, now);
            assert(gone.contains(d));
            let y = choose|y: int| 0 <= y < gone.len() && gone[y] == d;
            assert(after.removed[pushed.removed.len() + y] == d);
        }
    } else {
        let y = choose|y: int| 0 <= y < store.removed.len() && store.removed[y] == d;
        assert(after.removed[y] == d);
    }
}

/// An update expires once it has been advertised as often as its push count
/// says. Under a push count, an active update with `r` advertisements left
/// is still active, with `r - k` left, after `k` gossip cycles with push
/// where `k` is less than `r`; after `r` cycles or more, and one at least,
/// it is expired and no longer active. This holds while the expired digests
/// have room, so that no cut takes place in between.
pub proof fn lemma_push_count_expires(store: StoreState, d: Seq<char>, times: Seq<u128>)
    requires
        store.wf(),
        store.mode is PushCount,
        has_room(store),
        store.is_active(d),
    ensures
        ({
            let after = after_events(store, push_cycles(times));
            &&& after.wf()
            &&& after.mode == store.mode
            &&& has_room(after)
            &&& if times.len() < pushes_left(store, d) || times.len() == 0 {
                after.is_active(d) && !after.is_expired(d) && pushes_left(after, d) == pushes_left(store, d)
                    - times.len()
            } else {
                after.is_expired(d) && !after.is_active(d)
            }
        }),
    decreases times.len(),
{
    let events = push_cycles(times);
    if times.len() == 0 {
        let x = choose|x: int| 0 <= x < store.active.len() && digests_of(store.active)[x] == d;
        assert(!store.removed.contains(store.active[x].update.digest));
    } else {
        let front = times.drop_last();
        lemma_push_count_expires(store, d, front);
        assert(events.drop_last() =~= push_cycles(front));
        assert(events.last() == StoreEvent::Cycle { push: true, now: times.last() });
        let middle = after_events(store, push_cycles(front));
        lemma_push_cycle(middle, d, times.last());
    }
}

/// Content that is submitted under a push count of `n` and then advertised
/// in `n` gossip cycles or more, and in one at least, is expired after them
/// and no longer active. This holds while the expired digests have room.
pub proof fn lemma_submitted_expires_after_pushes(
    store: StoreState,
    content: Seq<u8>,
    now: u128,
    times: Seq<u128>,
)
    requires
        store.wf(),
        store.mode is PushCount,
        store.admission(digest_of(content)) is Ok,
        store.removed.len() + store.active.len() < MAX_EXPIRED_SIZE + MAX_EXPIRED_MARGIN,
        times.len() >= 1,
        times.len() >= store.mode->PushCount_0,
    ensures
        ({
            let submitted = after_event(store, StoreEvent::Submit { content, now });
            let after = after_events(submitted, push_cycles(times));
            &&& submitted.is_active(digest_of(content))
            &&& pushes_left(submitted, digest_of(content)) == store.mode->PushCount_0
            &&& after.is_expired(digest_of(content))
            &&& !after.is_active(digest_of(content))
        }),
{
    let d = digest_of(content);
    let submitted = after_event(store, StoreEvent::Submit { content, now });
    lemma_after_event_wf(store, StoreEvent::Submit { content, now });
    lemma_position_of(submitted, d, store.active.len() as int);
    lemma_push_count_expires(submitted, d, times);
}

/// Where updates never expire, an update that is active stays active
/// through every event.
pub proof fn lemma_never_expiring_stays_active(store: StoreState, events: Seq<StoreEvent>, d: Seq<char>)
    requires
        store.wf(),
        store.mode == UpdateExpirationMode::Never,
        store.is_active(d),
    ensures
        after_events(store, events).is_active(d),
        after_events(store, events).mode == UpdateExpirationMode::Never,
        after_events(store, events).wf(),
    decreases events.len(),
{
    if events.len() > 0 {
        let before = after_events(store, events.drop_last());
        lemma_never_expiring_stays_active(store, events.drop_last(), d);
        lemma_after_event_wf(before, events.last());
        let after = after_event(before, events.last());
        let x = choose|x: int| 0 <= x < before.active.len() && digests_of(before.active)[x] == d;
        match events.last() {
            StoreEvent::Submit { content, now } => {
                assert(digests_of(after.active)[x] == d);
            },
            StoreEvent::Cycle { push, now } => {
                assert(digests_of(after.active)[x] == d);
            },
            StoreEvent::Content { message, now } => {
                lemma_accepted(before, message.content, now);
                assert(before.knows(d));
                let middle = accepted(before, message.content, now).0;
                lemma_accepted_keeps_active(before, message.content, now, d);
                assert(middle.swept(now).active == middle.active);
            },
        }
    }
}

/// Going through the entries of a response takes no update out of the
/// active ones.
pub proof fn lemma_accepted_keeps_active(
    store: StoreState,
    batch: Seq<(Seq<char>, Seq<u8>)>,
    now: u128,
    d: Seq<char>,
)
    requires
        store.is_active(d),
    ensures
        accepted(store, batch, now).0.is_active(d),
        accepted(store, batch, now).0.content_of(d) == store.content_of(d),
    decreases batch.len(),
{
    if batch.len() > 0 {
        lemma_accepted_keeps_active(store, batch.drop_last(), now, d);
        let before = accepted(store, batch.drop_last(), now).0;
        let after = accepted(store, batch, now).0;
        let x = choose|x: int| 0 <= x < before.active.len() && digests_of(before.active)[x] == d;
        assert(digests_of(after.active)[x] == d);
        lemma_first_position(before, d);
        let first = before.position_of(d);
        assert(after.active[first] == before.active[first]);
        assert forall|y: int| 0 <= y < first implies (#[trigger] after.active[y]).update.digest != d by {
            assert(after.active[y] == before.active[y]);
        }
        lemma_first_position(after, d);
        let again = after.position_of(d);
        if again < first {
            assert(after.active[again] == before.active[again]);
        } else if again > first {
            assert(after.active[first].update.digest == d);
        }
    }
}

/// The position of an active digest is that of the first entry that has it.
pub proof fn lemma_first_position(store: StoreState, d: Seq<char>)
    requires
        store.is_active(d),
    ensures
        0 <= store.position_of(d) < store.active.len(),
        store.active[store.position_of(d)].update.digest == d,
        forall|y: int| 0 <= y < store.position_of(d) ==> (#[trigger] store.active[y]).update.digest != d,
{
    let x = choose|x: int| 0 <= x < store.active.len() && digests_of(store.active)[x] == d;
    lemma_first_exists(store.active, d, x);
}

/// Where an entry has a digest, there is a first entry that has it.
pub proof fn lemma_first_exists(active: Seq<crate::update::ActiveUpdate>, d: Seq<char>, at: int)
    requires
        0 <= at < active.len(),
        active[at].update.digest == d,
    ensures
        exists|x: int|
            0 <= x < active.len() && (#[trigger] active[x]).update.digest == d && forall|y: int|
                0 <= y < x ==> (#[trigger] active[y]).update.digest != d,
    decreases at,
{
    if exists|y: int| 0 <= y < at && (#[trigger] active[y]).update.digest == d {
        let y = choose|y: int| 0 <= y < at && (#[trigger] active[y]).update.digest == d;
        lemma_first_exists(active, d, y);
    }
}

/// A digest that was advertised and that the node does not know is among
/// the digests that it asks for.
pub proof fn lemma_wanted_contains(store: StoreState, headers: Seq<Seq<char>>, d: Seq<char>)
    requires
        store.is_new(d),
        headers.contains(d),
    ensures
        wanted_digests(store, headers).contains(d),
    decreases headers.len(),
{
    let wanted = wanted_digests(store, headers);
    let before = wanted_digests(store, headers.drop_last());
    if headers.last() == d {
        if before.contains(d) {
            let x = choose|x: int| 0 <= x < before.len() && before[x] == d;
            assert(wanted[x] == d);
        } else {
            assert(wanted[wanted.len() - 1] == d);
        }
    } else {
        let at = choose|at: int| 0 <= at < headers.len() && headers[at] == d;
        assert(headers.drop_last()[at] == d);
        lemma_wanted_contains(store, headers.drop_last(), d);
        let x = choose|x: int| 0 <= x < before.len() && before[x] == d;
        assert(wanted[x] == d);
    }
}

/// An active update that was asked for is among the entries of the answer,
/// with its content.
pub proof fn lemma_found_contains(store: StoreState, requested: Seq<(Seq<char>, Seq<u8>)>, d: Seq<char>)
    requires
        store.is_active(d),
        keys_of(requested).contains(d),
    ensures
        found_updates(store, requested).contains((d, store.content_of(d))),
        forall|i: int|
            0 <= i < found_updates(store, requested).len() ==> (#[trigger] found_updates(store, requested)[i]).1
                == store.content_of(found_updates(store, requested)[i].0),
    decreases requested.len(),
{
    lemma_found_contents(store, requested);
    let found = found_updates(store, requested);
    let before = found_updates(store, requested.drop_last());
    if requested.last().0 == d {
        if keys_of(before).contains(d) {
            lemma_found_contents(store, requested.drop_last());
            let x = choose|x: int| 0 <= x < before.len() && keys_of(before)[x] == d;
            assert(found[x] == (d, store.content_of(d)));
        } else {
            assert(found[found.len() - 1] == (d, store.content_of(d)));
        }
    } else {
        let at = choose|at: int| 0 <= at < requested.len() && keys_of(requested)[at] == d;
        assert(keys_of(requested.drop_last())[at] == d);
        lemma_found_contains(store, requested.drop_last(), d);
        let x = choose|x: int| 0 <= x < before.len() && before[x] == (d, store.content_of(d));
        assert(found[x] == (d, store.content_of(d)));
    }
}

/// Every entry of an answer carries the content of the active update with
/// its digest.
pub proof fn lemma_found_contents(store: StoreState, requested: Seq<(Seq<char>, Seq<u8>)>)
    ensures
        forall|i: int|
            0 <= i < found_updates(store, requested).len() ==> (#[trigger] found_updates(store, requested)[i]).1
                == store.content_of(found_updates(store, requested)[i].0),
    decreases requested.len(),
{
    if requested.len() > 0 {
        lemma_found_contents(store, requested.drop_last());
        let found = found_updates(store, requested);
        let before = found_updates(store, requested.drop_last());
        assert forall|i: int| 0 <= i < found.len() implies (#[trigger] found[i]).1 == store.content_of(
            found[i].0,
        ) by {
            if i < before.len() {
                assert(found[i] == before[i]);
            }
        }
    }
}

/// What a node knows after it has gone through the entries of a response, it
/// knew before or found among the digests of the entries.
pub proof fn lemma_accepted_origin(store: StoreState, batch: Seq<(Seq<char>, Seq<u8>)>, now: u128, d: Seq<char>)
    requires
        accepted(store, batch, now).0.knows(d),
    ensures
        store.knows(d) || keys_of(batch).contains(d),
    decreases batch.len(),
{
    if batch.len() > 0 {
        let before = accepted(store, batch.drop_last(), now).0;
        let after = accepted(store, batch, now).0;
        if before.knows(d) {
            lemma_accepted_origin(store, batch.drop_last(), now, d);
            if keys_of(batch.drop_last()).contains(d) {
                let x = choose|x: int| 0 <= x < batch.len() - 1 && keys_of(batch.drop_last())[x] == d;
                assert(keys_of(batch)[x] == d);
            }
        } else {
            assert(after.is_active(d));
            let x = choose|x: int| 0 <= x < after.active.len() && digests_of(after.active)[x] == d;
            if x < before.active.len() {
                assert(digests_of(before.active)[x] == d);
            }
            assert(keys_of(batch)[batch.len() - 1] == d);
        }
    }
}

/// An entry of a response whose digest the node does not know, and is that
/// of its content, is admitted, where no digest occurs twice in the
/// response.
pub proof fn lemma_accepted_admits(store: StoreState, batch: Seq<(Seq<char>, Seq<u8>)>, now: u128, k: int)
    requires
        distinct_keys(batch),
        0 <= k < batch.len(),
        store.is_new(batch[k].0),
        digest_of(batch[k].1) == batch[k].0,
    ensures
        accepted(store, batch, now).1.contains(UpdateView { content: batch[k].1, digest: batch[k].0 }),
        accepted(store, batch, now).0.is_active(batch[k].0),
    decreases batch.len(),
{
    let front = batch.drop_last();
    let (before, admitted) = accepted(store, front, now);
    let (after, all) = accepted(store, batch, now);
    let update = UpdateView { content: batch[k].1, digest: batch[k].0 };
    if k == batch.len() - 1 {
        if before.knows(batch[k].0) {
            lemma_accepted_origin(store, front, now, batch[k].0);
            let x = choose|x: int| 0 <= x < front.len() && keys_of(front)[x] == batch[k].0;
            assert(batch[x].0 == batch[k].0);
        }
        assert(all[all.len() - 1] == update);
        assert(digests_of(after.active)[before.active.len() as int] == batch[k].0);
    } else {
        assert(distinct_keys(front)) by {
            assert forall|i: int, j: int| 0 <= i < j < front.len() implies front[i].0 != front[j].0 by {
                assert(front[i] == batch[i] && front[j] == batch[j]);
            }
        }
        assert(front[k] == batch[k]);
        lemma_accepted_admits(store, front, now, k);
        let x = choose|x: int| 0 <= x < admitted.len() && admitted[x] == update;
        assert(all[x] == update);
        let y = choose|y: int| 0 <= y < before.active.len() && digests_of(before.active)[y] == batch[k].0;
        assert(digests_of(after.active)[y] == batch[k].0);
    }
}

/// One exchange brings an update from a node that holds it to a node that
/// does not know it. Where the holder advertises the digest `d` of an active
/// update among `headers`, the other node asks for it, the holder answers
/// with its content, and the other node admits the update with that content
/// for its handler and holds it as active.
pub proof fn lemma_advertised_update_is_fetched(
    holder: StoreState,
    asker: StoreState,
    headers: Seq<Seq<char>>,
    d: Seq<char>,
    now: u128,
)
    requires
        holder.wf(),
        holder.is_active(d),
        asker.is_new(d),
        headers.contains(d),
    ensures
        ({
            let wanted = wanted_digests(asker, headers);
            let found = found_updates(holder, request_entries(wanted));
            let (after, admitted) = accepted(asker, found, now);
            &&& wanted.contains(d)
            &&& found.contains((d, holder.content_of(d)))
            &&& admitted.contains(UpdateView { content: holder.content_of(d), digest: d })
            &&& after.is_active(d)
        }),
{
    let wanted = wanted_digests(asker, headers);
    let requested = request_entries(wanted);
    let found = found_updates(holder, requested);
    lemma_wanted_contains(asker, headers, d);
    let w = choose|w: int| 0 <= w < wanted.len() && wanted[w] == d;
    assert(keys_of(requested)[w] == d);
    lemma_found_contains(holder, requested, d);
    crate::gossip::lemma_found_updates_distinct(holder, requested);
    let k = choose|k: int| 0 <= k < found.len() && found[k] == (d, holder.content_of(d));
    lemma_first_position(holder, d);
    lemma_accepted_admits(asker, found, now, k);
}

/// The echo between two nodes, in the messages that they send. Where a header
/// message that the asker looks at advertises the digest `d`, which the asker
/// does not know and the holder has active, the asker sends a content
/// request, the holder answers it, and the answer makes the asker admit the
/// update, with the content that the holder has, for its handler.
pub proof fn lemma_echo<T>(
    holder: GossipState<T>,
    asker: GossipState<T>,
    advertisement: HeaderMessageView,
    d: Seq<char>,
    now: u128,
)
    requires
        holder.updates.wf(),
        holder.updates.is_active(d),
        asker.updates.is_new(d),
        advertisement.headers.contains(d),
        takes_headers(asker.config, advertisement.message_type),
    ensures
        asked_for(asker, advertisement) is Some,
        content_reply(holder, asked_for(asker, advertisement)->0) is Some,
        admitted_updates(
            asker.updates,
            content_reply(holder, asked_for(asker, advertisement)->0)->0,
            now,
        ).contains(UpdateView { content: holder.updates.content_of(d), digest: d }),
{
    lemma_advertised_update_is_fetched(holder.updates, asker.updates, advertisement.headers, d, now);
    let wanted = wanted_digests(asker.updates, advertisement.headers);
    let found = found_updates(holder.updates, request_entries(wanted));
    let reply = content_reply(holder, asked_for(asker, advertisement)->0)->0;
    assert(wanted.len() > 0);
    assert(found.len() > 0);
    assert(reply.content == found);
}

} // verus!
