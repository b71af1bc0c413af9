//! The gossip service: what a node does with its updates on each cycle and
//! on each message, as functions from state and event to state and messages.

use vstd::prelude::*;
use crate::config::{GossipConfig, PeerSamplingConfig};
use crate::digest::{compute_digest, digest_of};
use crate::history::{after_event, StoreEvent};
use crate::message::gossip::{
    content_view,
    distinct_keys,
    has_key,
    keys_of,
    lemma_unique_entries,
    ContentMessage,
    ContentMessageView,
    HeaderMessage,
    HeaderMessageView,
};
use crate::message::sampling::PeerSamplingMessage;
use crate::message::MessageType;
use crate::peer::{Peer, PeerView};
use crate::local_view::{peer_given, ViewState};
use crate::sampling::{cycled, message_model, received, PeerSamplingService, SamplingState};
use crate::selection::{distinct_addresses, foreign_peers, peer_views};
use crate::update::{
    digests_of,
    lemma_inserted_wf,
    lemma_sweep_keeps_known,
    lemma_swept_wf,
    updates_view,
    StoreState,
    SubmitError,
    Update,
    UpdateDecorator,
    UpdateHandler,
    UpdateView,
    MAX_EXPIRED_MARGIN,
    MAX_EXPIRED_SIZE,
};

verus! {

/// What a [`GossipService`] stands for in contracts: the node's address, its
/// peer sampling service, its configuration, its updates, and the handler
/// that the application has put in place, if any.
#[verifier::ext_equal]
pub ghost struct GossipState<T> {
    pub address: Seq<char>,
    pub sampling: SamplingState,
    pub config: GossipConfig,
    pub updates: StoreState,
    pub handler: Option<Box<T>>,
}

impl<T> GossipState<T> {
    /// The invariant of the service: that of its parts, which are those of
    /// one node under one configuration.
    pub open spec fn wf(self) -> bool {
        &&& self.sampling.wf()
        &&& self.sampling.address == self.address
        &&& self.updates.wf()
        &&& self.updates.mode == self.config.spec_update_expiration()
    }
}

/// Whether a node with the given configuration looks at the digests of a
/// header message of the given type: at those of a request where it pushes,
/// at those of a response where it pulls.
pub open spec fn takes_headers(config: GossipConfig, message_type: MessageType) -> bool {
    (message_type == MessageType::Request && config.is_push()) || (message_type == MessageType::Response
        && config.is_pull())
}

/// The digests among `headers` that the store does not know, each once, in
/// the order in which they first occur.
pub open spec fn wanted_digests(store: StoreState, headers: Seq<Seq<char>>) -> Seq<Seq<char>>
    decreases headers.len(),
{
    if headers.len() == 0 {
        Seq::empty()
    } else {
        let wanted = wanted_digests(store, headers.drop_last());
        if store.is_new(headers.last()) && !wanted.contains(headers.last()) {
            wanted.push(headers.last())
        } else {
            wanted
        }
    }
}

/// The entries of a request for `digests`: each digest with empty content.
pub open spec fn request_entries(digests: Seq<Seq<char>>) -> Seq<(Seq<char>, Seq<u8>)> {
    Seq::new(digests.len(), |i: int| (digests[i], Seq::<u8>::empty()))
}

/// The entries that answer a request: for each requested digest that is
/// active, once, the digest with the content of the update.
pub open spec fn found_updates(store: StoreState, requested: Seq<(Seq<char>, Seq<u8>)>) -> Seq<
    (Seq<char>, Seq<u8>),
>
    decreases requested.len(),
{
    if requested.len() == 0 {
        Seq::empty()
    } else {
        let found = found_updates(store, requested.drop_last());
        let digest = requested.last().0;
        if store.is_active(digest) && !keys_of(found).contains(digest) {
            found.push((digest, store.content_of(digest)))
        } else {
            found
        }
    }
}

/// The store after the entries of a response have been gone through in
/// order, and the updates that were admitted on the way. An entry is admitted
/// where the store does not know its digest and the digest is that of its
/// content.
pub open spec fn accepted(store: StoreState, batch: Seq<(Seq<char>, Seq<u8>)>, now: u128) -> (
    StoreState,
    Seq<UpdateView>,
)
    decreases batch.len(),
{
    if batch.len() == 0 {
        (store, Seq::empty())
    } else {
        let (before, admitted) = accepted(store, batch.drop_last(), now);
        let digest = batch.last().0;
        let content = batch.last().1;
        if before.is_new(digest) && digest_of(content) == digest {
            let update = UpdateView { content, digest };
            (before.inserted(update, now), admitted.push(update))
        } else {
            (before, admitted)
        }
    }
}

/// The digests of a list of updates, in order.
pub open spec fn update_digests(updates: Seq<UpdateView>) -> Seq<Seq<char>> {
    Seq::new(updates.len(), |i: int| updates[i].digest)
}

/// The header message with which a node in state `state` answers `message`:
/// where it pulls, the message is a request of another node, and an update is
/// active, a response that advertises all active digests.
pub open spec fn advertised_back<T>(state: GossipState<T>, message: HeaderMessageView) -> Option<HeaderMessageView> {
    if state.config.is_pull() && message.sender != state.address && message.message_type
        == MessageType::Request && state.updates.active.len() > 0 {
        Some(
            HeaderMessageView {
                sender: state.address,
                message_type: MessageType::Response,
                headers: digests_of(state.updates.active),
            },
        )
    } else {
        None
    }
}

/// The content request that a node in state `state` sends on `message`:
/// where it looks at the digests and does not know some of them, a request
/// for those.
pub open spec fn asked_for<T>(state: GossipState<T>, message: HeaderMessageView) -> Option<ContentMessageView> {
    if takes_headers(state.config, message.message_type) && wanted_digests(
        state.updates,
        message.headers,
    ).len() > 0 {
        Some(
            ContentMessageView {
                sender: state.address,
                message_type: MessageType::Request,
                content: request_entries(wanted_digests(state.updates, message.headers)),
            },
        )
    } else {
        None
    }
}

/// The content message with which a node in state `state` answers `message`:
/// to a request that names active updates, a response that carries them.
pub open spec fn content_reply<T>(state: GossipState<T>, message: ContentMessageView) -> Option<ContentMessageView> {
    if message.message_type == MessageType::Request && found_updates(state.updates, message.content).len()
        > 0 {
        Some(
            ContentMessageView {
                sender: state.address,
                message_type: MessageType::Response,
                content: found_updates(state.updates, message.content),
            },
        )
    } else {
        None
    }
}

/// The updates of a node after it has handled `message` at time `now`: the
/// entries of a response are gone through, and the expiration sweep
/// follows, also where the response holds no entry. A request changes
/// nothing.
pub open spec fn updates_after_content(store: StoreState, message: ContentMessageView, now: u128) -> StoreState {
    if message.message_type == MessageType::Response {
        accepted(store, message.content, now).0.swept(now)
    } else {
        store
    }
}

/// The updates that a node admits when it handles `message` at time `now`,
/// in order: those that a response made it admit. They are what the handler
/// of the application is to be given, each once.
pub open spec fn admitted_updates(store: StoreState, message: ContentMessageView, now: u128) -> Seq<
    UpdateView,
> {
    if message.message_type == MessageType::Response {
        accepted(store, message.content, now).1
    } else {
        Seq::empty()
    }
}

/// The header message as it stands in contracts, where there may be none.
pub open spec fn header_model(message: Option<HeaderMessage>) -> Option<HeaderMessageView> {
    match message {
        Some(message) => Some(message@),
        None => None,
    }
}

/// The content message as it stands in contracts, where there may be none.
pub open spec fn content_model(message: Option<ContentMessage>) -> Option<ContentMessageView> {
    match message {
        Some(message) => Some(message@),
        None => None,
    }
}

/// Whether `after` and `outcome` are what the service and its outbound
/// advertisement may be after a gossip cycle at time `now` in state `before`.
/// A partner is asked of the peer sampling service. Without one nothing else
/// happens. With one, the request advertises all active digests where the
/// node pushes, which counts as an advertisement of each, and none where it
/// does not; then the expiration sweep follows.
pub open spec fn gossiped<T>(
    before: GossipState<T>,
    after: GossipState<T>,
    outcome: Option<(PeerView, HeaderMessageView)>,
    now: u128,
) -> bool {
    &&& after.address == before.address
    &&& after.config == before.config
    &&& after.handler == before.handler
    &&& after.sampling.address == before.sampling.address
    &&& after.sampling.config == before.sampling.config
    &&& match outcome {
        None => {
            &&& peer_given(before.sampling.view, after.sampling.view, None)
            &&& after.updates == before.updates
        },
        Some((partner, request)) => {
            &&& peer_given(before.sampling.view, after.sampling.view, Some(partner))
            &&& request == HeaderMessageView {
                sender: before.address,
                message_type: MessageType::Request,
                headers: if before.config.is_push() {
                    digests_of(before.updates.active)
                } else {
                    Seq::empty()
                },
            }
            &&& after.updates == (if before.config.is_push() {
                before.updates.pushed()
            } else {
                before.updates
            }).swept(now)
        },
    }
}

/// The digests that a node asks for are digests that were advertised and
/// that it does not know, and none is asked for twice.
pub proof fn lemma_wanted_digests_distinct(store: StoreState, headers: Seq<Seq<char>>)
    ensures
        forall|i: int, j: int|
            0 <= i < j < wanted_digests(store, headers).len() ==> wanted_digests(store, headers)[i]
                != wanted_digests(store, headers)[j],
        forall|i: int|
            0 <= i < wanted_digests(store, headers).len() ==> store.is_new(
                #[trigger] wanted_digests(store, headers)[i],
            ) && headers.contains(wanted_digests(store, headers)[i]),
        distinct_keys(request_entries(wanted_digests(store, headers))),
    decreases headers.len(),
{
    if headers.len() > 0 {
        let front = headers.drop_last();
        lemma_wanted_digests_distinct(store, front);
        let before = wanted_digests(store, front);
        let wanted = wanted_digests(store, headers);
        assert forall|i: int| 0 <= i < wanted.len() implies store.is_new(#[trigger] wanted[i]) && headers.contains(
            wanted[i],
        ) by {
            if i < before.len() {
                assert(front.contains(before[i]));
                let x = choose|x: int| 0 <= x < front.len() && front[x] == before[i];
                assert(headers[x] == wanted[i]);
            } else {
                assert(headers[headers.len() - 1] == wanted[i]);
            }
        }
        assert forall|i: int, j: int| 0 <= i < j < wanted.len() implies wanted[i] != wanted[j] by {
            if j == before.len() {
                assert(before[i] == wanted[i]);
            }
        }
    }
    let wanted = wanted_digests(store, headers);
    assert forall|i: int, j: int| 0 <= i < j < request_entries(wanted).len() implies request_entries(
        wanted,
    )[i].0 != request_entries(wanted)[j].0 by {
        assert(wanted[i] != wanted[j]);
    }
}

/// The entries that answer a request are active updates that were asked
/// for, and none is given twice.
pub proof fn lemma_found_updates_distinct(store: StoreState, requested: Seq<(Seq<char>, Seq<u8>)>)
    ensures
        distinct_keys(found_updates(store, requested)),
        forall|i: int|
            0 <= i < found_updates(store, requested).len() ==> store.is_active(
                (#[trigger] found_updates(store, requested)[i]).0,
            ),
    decreases requested.len(),
{
    if requested.len() > 0 {
        lemma_found_updates_distinct(store, requested.drop_last());
        let before = found_updates(store, requested.drop_last());
        let found = found_updates(store, requested);
        assert forall|i: int, j: int| 0 <= i < j < found.len() implies found[i].0 != found[j].0 by {
            if j == before.len() {
                assert(keys_of(before)[i] == found[i].0);
            }
        }
    }
}

/// Going through the entries of a response keeps the invariant of the store;
/// what it admits was not known before, is known after, and no digest is
/// admitted twice; and what the store knew it still knows.
pub proof fn lemma_accepted(store: StoreState, batch: Seq<(Seq<char>, Seq<u8>)>, now: u128)
    requires
        store.wf(),
    ensures
        accepted(store, batch, now).0.wf(),
        accepted(store, batch, now).0.mode == store.mode,
        accepted(store, batch, now).0.removed == store.removed,
        forall|d: Seq<char>| store.knows(d) ==> accepted(store, batch, now).0.knows(d),
        forall|k: int|
            0 <= k < accepted(store, batch, now).1.len() ==> {
                let update = #[trigger] accepted(store, batch, now).1[k];
                &&& !store.knows(update.digest)
                &&& accepted(store, batch, now).0.is_active(update.digest)
                &&& update.digest == digest_of(update.content)
            },
        forall|i: int, j: int|
            0 <= i < j < accepted(store, batch, now).1.len() ==> accepted(store, batch, now).1[i].digest
                != accepted(store, batch, now).1[j].digest,
    decreases batch.len(),
{
    if batch.len() > 0 {
        lemma_accepted(store, batch.drop_last(), now);
        let (before, admitted) = accepted(store, batch.drop_last(), now);
        let (after, all) = accepted(store, batch, now);
        let digest = batch.last().0;
        let content = batch.last().1;
        if before.is_new(digest) && digest_of(content) == digest {
            let update = UpdateView { content, digest };
            lemma_inserted_wf(before, update, now);
            assert(digests_of(after.active)[before.active.len() as int] == digest);
            assert forall|d: Seq<char>| before.is_active(d) implies after.is_active(d) by {
                let x = choose|x: int| 0 <= x < before.active.len() && digests_of(before.active)[x] == d;
                assert(digests_of(after.active)[x] == d);
            }
            assert forall|k: int| 0 <= k < all.len() implies {
                let update = #[trigger] all[k];
                &&& !store.knows(update.digest)
                &&& after.is_active(update.digest)
                &&& update.digest == digest_of(update.content)
            } by {
                if k < admitted.len() {
                    assert(all[k] == admitted[k]);
                }
            }
            assert forall|i: int, j: int| 0 <= i < j < all.len() implies all[i].digest != all[j].digest by {
                if j == admitted.len() {
                    assert(all[i] == admitted[i]);
                    assert(before.is_active(admitted[i].digest));
                }
            }
        }
    }
}

/// A digest that the store knows is not admitted again: neither an update
/// that the node has submitted itself nor one that it has received before is
/// handed to the handler, as long as the store knows the digest.
pub proof fn lemma_known_not_delivered(store: StoreState, batch: Seq<(Seq<char>, Seq<u8>)>, now: u128, d: Seq<char>)
    requires
        store.wf(),
        store.knows(d),
    ensures
        !update_digests(accepted(store, batch, now).1).contains(d),
{
    lemma_accepted(store, batch, now);
    let admitted = accepted(store, batch, now).1;
    if update_digests(admitted).contains(d) {
        let k = choose|k: int| 0 <= k < admitted.len() && update_digests(admitted)[k] == d;
        assert(!store.knows(admitted[k].digest));
    }
}

/// An update that the node has submitted itself is not handed to its own
/// handler by a response that arrives afterwards.
pub proof fn lemma_submitted_not_delivered(
    store: StoreState,
    content: Seq<u8>,
    submitted_at: u128,
    batch: Seq<(Seq<char>, Seq<u8>)>,
    received_at: u128,
)
    requires
        store.wf(),
        store.admission(digest_of(content)) is Ok,
    ensures
        !update_digests(
            accepted(
                store.inserted(UpdateView { content, digest: digest_of(content) }, submitted_at),
                batch,
                received_at,
            ).1,
        ).contains(digest_of(content)),
{
    let update = UpdateView { content, digest: digest_of(content) };
    let after = store.inserted(update, submitted_at);
    lemma_inserted_wf(store, update, submitted_at);
    assert(digests_of(after.active)[store.active.len() as int] == digest_of(content));
    lemma_known_not_delivered(after, batch, received_at, digest_of(content));
}

/// No update is handed to the handler twice. Within one response no digest
/// is admitted twice; and a digest that one response made the node admit is
/// not admitted from a later one, unless in between the cut of the list of
/// expired digests has dropped it.
pub proof fn lemma_delivered_once(
    store: StoreState,
    first: Seq<(Seq<char>, Seq<u8>)>,
    first_time: u128,
    second: Seq<(Seq<char>, Seq<u8>)>,
    second_time: u128,
    d: Seq<char>,
)
    requires
        store.wf(),
        update_digests(accepted(store, first, first_time).1).contains(d),
        !(accepted(store, first, first_time).0.expired_moved(first_time).removed.len() > MAX_EXPIRED_SIZE
            + MAX_EXPIRED_MARGIN && accepted(store, first, first_time).0.expired_moved(
            first_time,
        ).removed.take(MAX_EXPIRED_MARGIN as int).contains(d)),
    ensures
        forall|i: int, j: int|
            0 <= i < j < accepted(store, first, first_time).1.len() ==> accepted(
                store,
                first,
                first_time,
            ).1[i].digest != accepted(store, first, first_time).1[j].digest,
        !update_digests(
            accepted(accepted(store, first, first_time).0.swept(first_time), second, second_time).1,
        ).contains(d),
{
    lemma_accepted(store, first, first_time);
    let (middle, admitted) = accepted(store, first, first_time);
    let k = choose|k: int| 0 <= k < admitted.len() && update_digests(admitted)[k] == d;
    assert(middle.is_active(admitted[k].digest));
    lemma_sweep_keeps_known(middle, first_time, d);
    lemma_swept_wf(middle, first_time);
    lemma_known_not_delivered(middle.swept(first_time), second, second_time, d);
}

/// Whether `text` is among `texts`.
fn contains_text(texts: &Vec<String>, text: &String) -> (found: bool)
    ensures
        found == texts.deep_view().contains(text@),
{
    let mut i: usize = 0;
    while i < texts.len()
        invariant
            i <= texts.len(),
            forall|k: int| 0 <= k < i ==> texts.deep_view()[k] != text@,
        decreases texts.len() - i,
    {
        if texts[i] == *text {
            assert(texts.deep_view()[i as int] == text@);
            return true;
        }
        i += 1;
    }
    false
}

/// The gossip service of a node: it holds the updates, advertises them to
/// the peers that its peer sampling service supplies, fetches what other
/// nodes advertise, and returns what it has fetched for the handler of the
/// application. It does no input or output itself and calls no handler: the
/// messages that it returns are to be sent, the messages that arrive are to
/// be handed to it, and the updates that it returns are to be handed to the
/// handler that it keeps.
pub struct GossipService<T: UpdateHandler> {
    peer_sampling_service: PeerSamplingService,
    gossip_config: GossipConfig,
    updates: UpdateDecorator,
    update_handler: Option<Box<T>>,
}

impl<T: UpdateHandler> View for GossipService<T> {
    type V = GossipState<T>;

    closed spec fn view(&self) -> GossipState<T> {
        GossipState {
            address: self.peer_sampling_service@.address,
            sampling: self.peer_sampling_service@,
            config: self.gossip_config,
            updates: self.updates@,
            handler: self.update_handler,
        }
    }
}

impl<T: UpdateHandler> GossipService<T> {
    /// A service for the node at `address`: nothing in its view, no updates,
    /// no handler.
    pub fn new(address: String, peer_sampling_config: PeerSamplingConfig, gossip_config: GossipConfig) -> (service:
        GossipService<T>)
        ensures
            service@ == (GossipState::<T> {
                address: address@,
                sampling: SamplingState {
                    address: address@,
                    config: peer_sampling_config,
                    view: ViewState { host_address: address@, peers: Seq::empty(), queue: Seq::empty() },
                },
                config: gossip_config,
                updates: StoreState {
                    active: Seq::empty(),
                    removed: Seq::empty(),
                    mode: gossip_config.spec_update_expiration(),
                },
                handler: None,
            }),
            service@.wf(),
    {
        let peer_sampling_service = PeerSamplingService::new(address, peer_sampling_config);
        let updates = UpdateDecorator::new(*gossip_config.update_expiration());
        GossipService { peer_sampling_service, gossip_config, updates, update_handler: None }
    }

    /// A service for the node at `address` with the default configurations.
    pub fn new_with_defaults(address: String) -> (service: GossipService<T>)
        ensures
            service@.address == address@,
            service@.sampling.view == (ViewState {
                host_address: address@,
                peers: Seq::empty(),
                queue: Seq::empty(),
            }),
            service@.updates.active.len() == 0,
            service@.updates.removed.len() == 0,
            service@.handler is None,
            service@.config.is_push() && service@.config.is_pull(),
            service@.config.gossip_period() == 1000 && service@.config.gossip_deviation() == 0,
            service@.config.spec_update_expiration() == crate::config::UpdateExpirationMode::Never,
            service@.sampling.config.is_push() && service@.sampling.config.is_pull(),
            service@.sampling.config.sampling_period() == 60000,
            service@.sampling.config.sampling_deviation() == 0,
            service@.sampling.config.view_size() == 30,
            service@.sampling.config.healing_factor() == 3,
            service@.sampling.config.swapping_factor() == 12,
            service@.wf(),
    {
        Self::new(address, PeerSamplingConfig::default(), GossipConfig::default())
    }

    /// The address of the node.
    pub fn address(&self) -> (address: &str)
        ensures
            address@ == self@.address,
    {
        self.peer_sampling_service.address().as_str()
    }

    /// A copy of the peers of the node's view.
    pub fn peers(&self) -> (peers: Vec<Peer>)
        ensures
            peer_views(peers@) == self@.sampling.view.peers,
    {
        self.peer_sampling_service.peers()
    }

    /// Starts the service: the handler is put in place, and the view is
    /// seeded with the initial peers but for the node itself.
    pub fn start(&mut self, initial_peers: Option<Vec<Peer>>, update_handler: Box<T>)
        ensures
            final(self)@ == (GossipState::<T> {
                handler: Some(update_handler),
                sampling: SamplingState {
                    view: ViewState {
                        peers: match initial_peers {
                            Some(peers) => old(self)@.sampling.view.peers + foreign_peers(
                                peer_views(peers@),
                                old(self)@.address,
                            ),
                            None => old(self)@.sampling.view.peers,
                        },
                        ..old(self)@.sampling.view
                    },
                    ..old(self)@.sampling
                },
                ..old(self)@
            }),
            old(self)@.wf() ==> final(self)@.wf(),
    {
        self.update_handler = Some(update_handler);
        self.peer_sampling_service.init(initial_peers);
    }

    /// Submits content for dissemination at time `now`. The update becomes
    /// active unless the node has it already, active (`AlreadyActive`) or
    /// expired (`AlreadyExpired`). The node's own handler does not get it.
    pub fn submit(&mut self, bytes: Vec<u8>, now: u128) -> (result: Result<(), SubmitError>)
        ensures
            result == old(self)@.updates.admission(digest_of(bytes@)),
            final(self)@.updates == after_event(
                old(self)@.updates,
                StoreEvent::Submit { content: bytes@, now },
            ),
            final(self)@ == (GossipState::<T> {
                updates: if result is Ok {
                    old(self)@.updates.inserted(UpdateView { content: bytes@, digest: digest_of(bytes@) }, now)
                } else {
                    old(self)@.updates
                },
                ..old(self)@
            }),
            old(self)@.wf() ==> final(self)@.wf(),
    {
        let update = Update::new(bytes);
        self.updates.insert_update(update, now)
    }

    /// Whether the update with the given content is active.
    pub fn is_active(&self, bytes: Vec<u8>) -> (active: bool)
        ensures
            active == self@.updates.is_active(digest_of(bytes@)),
    {
        let digest = compute_digest(&bytes);
        self.updates.is_active(&digest)
    }

    /// Whether the update with the given content is remembered as expired.
    pub fn is_expired(&self, bytes: Vec<u8>) -> (expired: bool)
        ensures
            expired == self@.updates.is_expired(digest_of(bytes@)),
    {
        let digest = compute_digest(&bytes);
        self.updates.is_expired(&digest)
    }

    /// Stops the service: the handler is dropped, the view and its queue are
    /// emptied, and all updates are forgotten. Stopping a stopped service
    /// changes nothing.
    pub fn shutdown(&mut self)
        ensures
            final(self)@ == (GossipState::<T> {
                handler: None,
                sampling: SamplingState {
                    view: ViewState { peers: Seq::empty(), queue: Seq::empty(), ..old(self)@.sampling.view },
                    ..old(self)@.sampling
                },
                updates: old(self)@.updates.cleared(),
                ..old(self)@
            }),
            old(self)@.wf() ==> final(self)@.wf(),
    {
        self.update_handler = None;
        self.peer_sampling_service.shutdown();
        self.updates.clear();
    }

    /// One outbound gossip cycle at time `now`. Returns the partner and the
    /// header request to send to it, or nothing where the peer sampling
    /// service has no peer to give.
    pub fn gossip_cycle(&mut self, now: u128) -> (outcome: Option<(Peer, HeaderMessage)>)
        ensures
            gossiped(
                old(self)@,
                final(self)@,
                match outcome {
                    Some(exchange) => Some((exchange.0@, exchange.1@)),
                    None => None,
                },
                now,
            ),
            final(self)@.updates == if outcome is Some {
                after_event(old(self)@.updates, StoreEvent::Cycle { push: old(self)@.config.is_push(), now })
            } else {
                old(self)@.updates
            },
            old(self)@.wf() ==> final(self)@.wf(),
    {
        match self.peer_sampling_service.get_peer() {
            None => None,
            Some(partner) => {
                let mut message = HeaderMessage::new_request(self.peer_sampling_service.address().clone());
                if self.gossip_config.is_push() {
                    let headers = self.updates.active_headers_for_push();
                    message.set_headers(headers);
                }
                self.updates.clear_expired(now);
                Some((partner, message))
            },
        }
    }

    /// Handles a header message. Returns what is to be sent to its sender: a
    /// header response that advertises the active digests, where that is
    /// due, and a content request for the advertised digests that the node
    /// does not know, where there are any.
    pub fn on_header_message(&self, message: &HeaderMessage) -> (replies: (
        Option<HeaderMessage>,
        Option<ContentMessage>,
    ))
        ensures
            header_model(replies.0) == advertised_back(self@, message@),
            content_model(replies.1) == asked_for(self@, message@),
            match content_model(replies.1) {
                Some(request) => distinct_keys(request.content),
                None => true,
            },
    {
        proof {
            lemma_wanted_digests_distinct(self.updates@, message@.headers);
        }
        let requested = match message.message_type() {
            MessageType::Request => true,
            MessageType::Response => false,
        };
        let mut response: Option<HeaderMessage> = None;
        if self.gossip_config.is_pull() && !message.is_from(self.peer_sampling_service.address()) && requested
            && self.updates.active_count() > 0 {
            let mut advertisement = HeaderMessage::new_response(self.peer_sampling_service.address().clone());
            advertisement.set_headers(self.updates.active_headers());
            response = Some(advertisement);
        }
        let mut request: Option<ContentMessage> = None;
        if (requested && self.gossip_config.is_push()) || (!requested && self.gossip_config.is_pull()) {
            let headers = message.headers();
            let ghost advertised = headers.deep_view();
            let mut wanted: Vec<String> = Vec::new();
            let mut i: usize = 0;
            assert(wanted.deep_view() =~= wanted_digests(self.updates@, advertised.take(0)));
            while i < headers.len()
                invariant
                    i <= headers.len(),
                    advertised == headers.deep_view(),
                    wanted.deep_view() == wanted_digests(self.updates@, advertised.take(i as int)),
                decreases headers.len() - i,
            {
                let ghost so_far = wanted.deep_view();
                proof {
                    assert(advertised.take(i + 1).drop_last() =~= advertised.take(i as int));
                    assert(advertised.take(i + 1).last() == headers@[i as int]@);
                }
                if self.updates.is_new(&headers[i]) && !contains_text(&wanted, &headers[i]) {
                    wanted.push(headers[i].clone());
                    assert(wanted.deep_view() =~= so_far.push(headers@[i as int]@));
                }
                i += 1;
            }
            assert(advertised.take(headers.len() as int) =~= advertised);
            if wanted.len() > 0 {
                let mut entries: Vec<(String, Vec<u8>)> = Vec::new();
                let mut j: usize = 0;
                while j < wanted.len()
                    invariant
                        j <= wanted.len(),
                        entries@.len() == j,
                        forall|k: int|
                            0 <= k < j ==> (#[trigger] entries@[k]).0@ == wanted@[k]@ && entries@[k].1@
                                == Seq::<u8>::empty(),
                    decreases wanted.len() - j,
                {
                    entries.push((wanted[j].clone(), Vec::new()));
                    j += 1;
                }
                proof {
                    assert(content_view(entries@) =~= request_entries(wanted.deep_view()));
                    lemma_unique_entries(content_view(entries@));
                }
                request = Some(ContentMessage::new_request(self.peer_sampling_service.address().clone(), entries));
            }
        }
        (response, request)
    }

    /// The handler that the application has put in place, if any. It is to
    /// be given every update that [`GossipService::on_content_message`]
    /// returns.
    pub fn update_handler(&self) -> (handler: Option<&T>)
        ensures
            handler is Some <==> self@.handler is Some,
            handler is Some ==> *handler->0 == *self@.handler->0,
    {
        match &self.update_handler {
            Some(handler) => Some(&**handler),
            None => None,
        }
    }

    /// Handles a content message at time `now`. A request is answered with
    /// the requested updates that are active, where there are any; the
    /// answer is to be sent to the sender of the request. Of a response,
    /// every entry that the node does not know and whose digest is that of
    /// its content becomes active; then the expiration sweep follows, after
    /// every response.
    /// Returns the answer and the updates that were admitted, in order: each
    /// of them is to be handed to the handler of the application, once.
    pub fn on_content_message(&mut self, message: ContentMessage, now: u128) -> (outcome: (
        Option<ContentMessage>,
        Vec<Update>,
    ))
        ensures
            content_model(outcome.0) == content_reply(old(self)@, message@),
            match content_model(outcome.0) {
                Some(reply) => distinct_keys(reply.content),
                None => true,
            },
            updates_view(outcome.1@) == admitted_updates(old(self)@.updates, message@, now),
            final(self)@.updates == after_event(
                old(self)@.updates,
                StoreEvent::Content { message: message@, now },
            ),
            final(self)@ == (GossipState::<T> {
                updates: updates_after_content(old(self)@.updates, message@, now),
                ..old(self)@
            }),
            old(self)@.wf() ==> final(self)@.wf(),
    {
        let requested = match message.message_type() {
            MessageType::Request => true,
            MessageType::Response => false,
        };
        let ghost batch = message@.content;
        let content = message.content();
        let mut admitted: Vec<Update> = Vec::new();
        assert(updates_view(admitted@) =~= Seq::<UpdateView>::empty());
        if requested {
            let mut found: Vec<(String, Vec<u8>)> = Vec::new();
            let mut i: usize = 0;
            assert(content_view(found@) =~= found_updates(self.updates@, batch.take(0)));
            while i < content.len()
                invariant
                    i <= content.len(),
                    batch == content_view(content@),
                    content_view(found@) == found_updates(self.updates@, batch.take(i as int)),
                decreases content.len() - i,
            {
                let ghost so_far = content_view(found@);
                proof {
                    assert(batch.take(i + 1).drop_last() =~= batch.take(i as int));
                    assert(batch.take(i + 1).last() == batch[i as int]);
                }
                match self.updates.get_update(content[i].0.as_str()) {
                    Some(update) => {
                        if !has_key(&found, &content[i].0) {
                            found.push((content[i].0.clone(), update.content().clone()));
                            assert(content_view(found@) =~= so_far.push(
                                (batch[i as int].0, self.updates@.content_of(batch[i as int].0)),
                            ));
                        }
                    },
                    None => {},
                }
                i += 1;
            }
            proof {
                assert(batch.take(content.len() as int) =~= batch);
                lemma_found_updates_distinct(self.updates@, batch);
                lemma_unique_entries(content_view(found@));
            }
            if found.len() > 0 {
                (Some(ContentMessage::new_response(self.peer_sampling_service.address().clone(), found)), admitted)
            } else {
                (None, admitted)
            }
        } else {
            let ghost entries = content@;
            let ghost start = self.updates@;
            assert(updates_view(admitted@) =~= accepted(start, batch.take(0), now).1);
            for entry in it: content
                invariant
                    it.seq() == entries,
                    batch == content_view(entries),
                    self.peer_sampling_service == old(self).peer_sampling_service,
                    self.gossip_config == old(self).gossip_config,
                    self.update_handler == old(self).update_handler,
                    start == old(self)@.updates,
                    self.updates@ == accepted(start, batch.take(it.index() as int), now).0,
                    updates_view(admitted@) == accepted(start, batch.take(it.index() as int), now).1,
            {
                let ghost so_far = updates_view(admitted@);
                proof {
                    assert(batch.take(it.index() + 1).drop_last() =~= batch.take(it.index() as int));
                    assert(batch.take(it.index() + 1).last() == batch[it.index() as int]);
                }
                let (digest, bytes) = entry;
                if self.updates.is_new(&digest) {
                    let update = Update::new(bytes);
                    if digest == *update.digest() {
                        let copy = update.clone();
                        match self.updates.insert_update(update, now) {
                            Ok(()) => {
                                admitted.push(copy);
                                assert(updates_view(admitted@) =~= so_far.push(
                                    UpdateView {
                                        content: batch[it.index() as int].1,
                                        digest: batch[it.index() as int].0,
                                    },
                                ));
                            },
                            Err(_) => {},
                        }
                    }
                }
            }
            proof {
                assert(batch.take(batch.len() as int) =~= batch);
                if start.wf() {
                    lemma_accepted(start, batch, now);
                    lemma_swept_wf(self.updates@, now);
                    assert(self.updates@.swept(now).mode == start.mode);
                }
            }
            self.updates.clear_expired(now);
            (None, admitted)
        }
    }

    /// Handles a sampling message from another node; see
    /// [`PeerSamplingService::on_message`]. Returns the answer to send to the
    /// sender of the message, where one is due.
    pub fn on_sampling_message(&mut self, message: &PeerSamplingMessage) -> (reply: Option<PeerSamplingMessage>)
        ensures
            received(old(self)@.sampling, final(self)@.sampling, message.model(), message_model(reply)),
            final(self)@ == (GossipState::<T> { sampling: final(self)@.sampling, ..old(self)@ }),
            old(self)@.wf() ==> final(self)@.wf(),
            message.model().view is Some ==> final(self)@.sampling.within_bound() && distinct_addresses(
                final(self)@.sampling.view.peers,
            ),
            old(self)@.sampling.within_bound() ==> final(self)@.sampling.within_bound(),
    {
        self.peer_sampling_service.on_message(message)
    }

    /// One outbound sampling cycle; see
    /// [`PeerSamplingService::sampling_cycle`]. Returns the partner and the
    /// request to send to it, or nothing where the view is empty.
    pub fn sampling_cycle(&mut self) -> (outcome: Option<(Peer, PeerSamplingMessage)>)
        ensures
            cycled(
                old(self)@.sampling,
                final(self)@.sampling,
                match outcome {
                    Some(exchange) => Some((exchange.0@, exchange.1.model())),
                    None => None,
                },
            ),
            final(self)@ == (GossipState::<T> { sampling: final(self)@.sampling, ..old(self)@ }),
            old(self)@.wf() ==> final(self)@.wf(),
            final(self)@.sampling.view.peers.len() == old(self)@.sampling.view.peers.len(),
    {
        self.peer_sampling_service.sampling_cycle()
    }
}

} // verus!
