//! The peer sampling service: what a node does with its view on each cycle
//! and on each message.

use vstd::prelude::*;
use crate::config::PeerSamplingConfig;
use crate::local_view::{
    LocalView,
    ViewState,
    buffer_built,
    peer_given,
    peer_model,
    view_merged,
};
use crate::message::sampling::{PeerSamplingMessage, PeerSamplingMessageView};
use crate::message::MessageType;
use crate::peer::{Peer, PeerView};
use crate::random::is_rearrangement;
use crate::selection::{
    address_marks,
    aged,
    distinct_addresses,
    excess,
    foreign_peers,
    has_address,
    least,
    lemma_aged,
    lemma_merge_duplicates,
    lemma_partition_len,
    lemma_picked,
    lemma_rearrangement,
    lemma_thinning,
    lemma_without_oldest_none,
    merge_duplicates,
    oldest_marks,
    peer_views,
    selection,
    without_oldest,
};

verus! {

/// What a [`PeerSamplingService`] stands for in contracts.
#[verifier::ext_equal]
pub ghost struct SamplingState {
    pub address: Seq<char>,
    pub config: PeerSamplingConfig,
    pub view: ViewState,
}

impl SamplingState {
    /// The invariant of the service: the view is that of the node, the node
    /// is not in it, and the queue holds peers of the view only.
    pub open spec fn wf(self) -> bool {
        self.view.wf() && self.view.host_address == self.address && self.view.queue_in_view()
    }

    /// Whether the view holds no more peers than the view size.
    pub open spec fn within_bound(self) -> bool {
        self.view.peers.len() <= self.config.view_size()
    }
}

/// What a message stands for where there may be none.
pub open spec fn message_model(message: Option<PeerSamplingMessage>) -> Option<PeerSamplingMessageView> {
    match message {
        Some(message) => Some(message.model()),
        None => None,
    }
}

/// The steps that handling a message goes through: `answered` is the view
/// once the reply has been built, `merged` the view once the buffer of the
/// message has been merged in, `after` the view at the end.
pub open spec fn receive_steps(
    before: SamplingState,
    answered: ViewState,
    merged: ViewState,
    after: ViewState,
    message: PeerSamplingMessageView,
    reply: Option<PeerSamplingMessageView>,
) -> bool {
    let c = before.config.view_size() as nat;
    let h = before.config.healing_factor() as nat;
    let s = before.config.swapping_factor() as nat;
    &&& if message.message_type == MessageType::Request && before.config.is_pull() {
        &&& reply is Some
        &&& reply->0.sender == before.address
        &&& reply->0.message_type == MessageType::Response
        &&& reply->0.view is Some
        &&& buffer_built(before.view, answered, reply->0.view->0, c, h)
    } else {
        reply is None && answered == before.view
    }
    &&& match message.view {
        Some(buffer) => view_merged(answered, merged, buffer, c, h, s),
        None => merged == answered,
    }
    &&& after == ViewState { peers: aged(merged.peers), ..merged }
}

/// Whether `after` and `reply` are what the service and its answer may be
/// once it has handled `message` in state `before`: a request is answered
/// with a buffer where the node pulls, the view that the message carries is
/// merged in, and every peer grows older by one.
pub open spec fn received(
    before: SamplingState,
    after: SamplingState,
    message: PeerSamplingMessageView,
    reply: Option<PeerSamplingMessageView>,
) -> bool {
    &&& after.address == before.address
    &&& after.config == before.config
    &&& exists|answered: ViewState, merged: ViewState| #[trigger]
        receive_steps(before, answered, merged, after.view, message, reply)
}

/// Whether `after` and `outcome` are what the service and its outbound
/// exchange may be after a sampling cycle in state `before`: with an empty
/// view nothing happens; else the partner is a peer of the view, the request
/// carries a buffer where the node pushes and nothing where it does not, and
/// every peer grows older by one.
pub open spec fn cycled(
    before: SamplingState,
    after: SamplingState,
    outcome: Option<(PeerView, PeerSamplingMessageView)>,
) -> bool {
    &&& after.address == before.address
    &&& after.config == before.config
    &&& outcome is None <==> before.view.peers.len() == 0
    &&& match outcome {
        None => after == before,
        Some((partner, request)) => {
            &&& before.view.peers.contains(partner)
            &&& request.sender == before.address
            &&& request.message_type == MessageType::Request
            &&& exists|sent: ViewState| #[trigger] cycle_steps(before, sent, after.view, request)
        },
    }
}

/// The steps of a sampling cycle: `sent` is the view once the request has
/// been built, `after` the view at the end.
pub open spec fn cycle_steps(
    before: SamplingState,
    sent: ViewState,
    after: ViewState,
    request: PeerSamplingMessageView,
) -> bool {
    let c = before.config.view_size() as nat;
    let h = before.config.healing_factor() as nat;
    &&& if before.config.is_push() {
        request.view is Some && buffer_built(before.view, sent, request.view->0, c, h)
    } else {
        request.view is None && sent == before.view
    }
    &&& after == ViewState { peers: aged(sent.peers), ..sent }
}

/// The peer sampling service of a node: it keeps the view, answers the
/// sampling messages of other nodes and starts exchanges of its own.
pub struct PeerSamplingService {
    config: PeerSamplingConfig,
    view: LocalView,
}

impl View for PeerSamplingService {
    type V = SamplingState;

    closed spec fn view(&self) -> SamplingState {
        SamplingState { address: self.view@.host_address, config: self.config, view: self.view@ }
    }
}

impl PeerSamplingService {
    /// A service for the node at `address`, with an empty view.
    pub fn new(address: String, config: PeerSamplingConfig) -> (service: PeerSamplingService)
        ensures
            service@ == (SamplingState {
                address: address@,
                config,
                view: ViewState { host_address: address@, peers: Seq::empty(), queue: Seq::empty() },
            }),
            service@.wf(),
    {
        let view = LocalView::new(address);
        PeerSamplingService { config, view }
    }

    /// The address of the node.
    pub fn address(&self) -> (address: &String)
        ensures
            address@ == self@.address,
    {
        self.view.host_address()
    }

    /// Seeds the view with the initial peers, leaving out the node itself.
    pub fn init(&mut self, initial_peers: Option<Vec<Peer>>)
        ensures
            final(self)@ == (SamplingState {
                view: ViewState {
                    peers: match initial_peers {
                        Some(peers) => old(self)@.view.peers + foreign_peers(
                            peer_views(peers@),
                            old(self)@.address,
                        ),
                        None => old(self)@.view.peers,
                    },
                    ..old(self)@.view
                },
                ..old(self)@
            }),
            old(self)@.wf() ==> final(self)@.wf(),
    {
        match initial_peers {
            Some(peers) => {
                self.view.take_in(&peers);
            },
            None => {},
        }
    }

    /// A peer for the application: the next peer of the queue, which leaves
    /// it; with an empty queue, some peer of the view picked at random, or
    /// none where the view is empty too.
    pub fn get_peer(&mut self) -> (peer: Option<Peer>)
        ensures
            final(self)@.address == old(self)@.address,
            final(self)@.config == old(self)@.config,
            peer_given(old(self)@.view, final(self)@.view, peer_model(peer)),
            old(self)@.wf() ==> final(self)@.wf(),
            final(self)@.view.peers == old(self)@.view.peers,
    {
        self.view.get_peer()
    }

    /// A copy of the peers of the view.
    pub fn peers(&self) -> (peers: Vec<Peer>)
        ensures
            peer_views(peers@) == self@.view.peers,
    {
        self.view.peers()
    }

    /// Empties the view and the queue.
    pub fn shutdown(&mut self)
        ensures
            final(self)@ == (SamplingState {
                view: ViewState { peers: Seq::empty(), queue: Seq::empty(), ..old(self)@.view },
                ..old(self)@
            }),
            old(self)@.wf() ==> final(self)@.wf(),
    {
        self.view.clear();
    }

    /// Builds the buffer for an exchange: the view is put in a random order
    /// and its oldest peers are moved to the end; the buffer holds the node
    /// itself, with age 0, and then the peers at the head of the view.
    pub fn build_buffer(&mut self) -> (buffer: Vec<Peer>)
        ensures
            final(self)@.address == old(self)@.address,
            final(self)@.config == old(self)@.config,
            buffer_built(
                old(self)@.view,
                final(self)@.view,
                peer_views(buffer@),
                old(self)@.config.view_size() as nat,
                old(self)@.config.healing_factor() as nat,
            ),
            old(self)@.wf() ==> final(self)@.wf(),
            final(self)@.view.peers.len() == old(self)@.view.peers.len(),
            distinct_addresses(old(self)@.view.peers) ==> distinct_addresses(final(self)@.view.peers),
    {
        let mut buffer: Vec<Peer> = Vec::new();
        buffer.push(Peer::new(self.view.host_address().clone()));
        self.view.permute();
        let ghost shuffled = self.view@.peers;
        self.view.move_oldest_to_end(self.config.healing_factor());
        let mut head = self.view.head(self.config.view_size());
        let ghost first = peer_views(buffer@);
        let ghost rest = peer_views(head@);
        buffer.append(&mut head);
        proof {
            assert(peer_views(buffer@) =~= first + rest);
            assert(first =~= seq![PeerView { address: old(self)@.address, age: 0 }]);
            assert(is_rearrangement(old(self)@.view.peers, shuffled));
        }
        buffer
    }

    /// Handles a sampling message from another node. A request is answered,
    /// where the node pulls, with a response that carries a buffer; the
    /// answer goes to the sender of the message. Then the view that the
    /// message carries is merged into the view, and every peer of the view
    /// grows older by one.
    pub fn on_message(&mut self, message: &PeerSamplingMessage) -> (reply: Option<PeerSamplingMessage>)
        ensures
            received(old(self)@, final(self)@, message.model(), message_model(reply)),
            old(self)@.wf() ==> final(self)@.wf(),
            message.model().view is Some ==> final(self)@.within_bound() && distinct_addresses(
                final(self)@.view.peers,
            ),
            old(self)@.within_bound() ==> final(self)@.within_bound(),
    {
        let ghost before = self@;
        let mut reply: Option<PeerSamplingMessage> = None;
        let requested = match message.message_type() {
            MessageType::Request => true,
            MessageType::Response => false,
        };
        if requested && self.config.is_pull() {
            let buffer = self.build_buffer();
            reply = Some(PeerSamplingMessage::new_response(self.view.host_address().clone(), Some(buffer)));
        }
        let ghost answered = self@.view;
        match message.view() {
            Some(buffer) => {
                self.view.select(
                    self.config.view_size(),
                    self.config.healing_factor(),
                    self.config.swapping_factor(),
                    buffer,
                );
            },
            None => {},
        }
        let ghost merged = self@.view;
        self.view.increase_age();
        proof {
            assert(self@.view =~= ViewState { peers: aged(merged.peers), ..merged });
            assert(receive_steps(before, answered, merged, self@.view, message.model(), message_model(reply)));
        }
        reply
    }

    /// One outbound sampling cycle. With an empty view nothing happens. Else
    /// a partner is picked at random from the view and a request for it is
    /// built, which carries a buffer where the node pushes; then every peer
    /// of the view grows older by one. The request is to be sent to the
    /// partner.
    pub fn sampling_cycle(&mut self) -> (outcome: Option<(Peer, PeerSamplingMessage)>)
        ensures
            cycled(
                old(self)@,
                final(self)@,
                match outcome {
                    Some(exchange) => Some((exchange.0@, exchange.1.model())),
                    None => None,
                },
            ),
            old(self)@.wf() ==> final(self)@.wf(),
            final(self)@.view.peers.len() == old(self)@.view.peers.len(),
            distinct_addresses(old(self)@.view.peers) ==> distinct_addresses(final(self)@.view.peers),
    {
        let ghost before = self@;
        match self.view.select_peer() {
            None => None,
            Some(partner) => {
                let request = if self.config.is_push() {
                    let buffer = self.build_buffer();
                    PeerSamplingMessage::new_request(self.view.host_address().clone(), Some(buffer))
                } else {
                    PeerSamplingMessage::new_request(self.view.host_address().clone(), None)
                };
                let ghost sent = self@.view;
                self.view.increase_age();
                proof {
                    assert(self@.view =~= ViewState { peers: aged(sent.peers), ..sent });
                    assert(cycle_steps(before, sent, self@.view, request.model()));
                }
                Some((partner, request))
            },
        }
    }
}

/// A buffer that was built holds the node itself first, with age 0, and then
/// peers of the view, which has as many peers as before.
pub proof fn lemma_buffer_built(before: ViewState, after: ViewState, buffer: Seq<PeerView>, c: nat, h: nat)
    requires
        buffer_built(before, after, buffer, c, h),
    ensures
        after.peers.len() == before.peers.len(),
        1 <= buffer.len() <= 1 + before.peers.len(),
        buffer[0] == (PeerView { address: before.host_address, age: 0 }),
{
    let shuffled = choose|shuffled: Seq<PeerView>| #[trigger]
        is_rearrangement(before.peers, shuffled) && after.peers == crate::selection::oldest_moved_to_end(
            shuffled,
            h,
        );
    lemma_rearrangement(before.peers, shuffled);
    lemma_partition_len(shuffled, oldest_marks(shuffled, h));
}

/// A merge into a view that has room takes no peer out: the view then holds
/// a peer for every address that it held and for every address of the buffer
/// but the node's own.
pub proof fn lemma_merge_with_room(
    before: ViewState,
    after: ViewState,
    buffer: Seq<PeerView>,
    c: nat,
    h: nat,
    s: nat,
)
    requires
        view_merged(before, after, buffer, c, h, s),
        before.peers.len() + buffer.len() <= c,
    ensures
        after.peers == merge_duplicates(before.peers + foreign_peers(buffer, before.host_address)),
        forall|i: int| 0 <= i < before.peers.len() ==> has_address(after.peers, (#[trigger] before.peers[i]).address),
        forall|i: int|
            0 <= i < buffer.len() && buffer[i].address != before.host_address ==> has_address(
                after.peers,
                (#[trigger] buffer[i]).address,
            ),
{
    let host = before.host_address;
    let marks = address_marks(buffer, host);
    let taken = foreign_peers(buffer, host);
    let all = before.peers + taken;
    let merged = merge_duplicates(all);
    lemma_picked(buffer, marks, false);
    lemma_merge_duplicates(all);
    assert(excess(merged.len(), c) == 0);
    lemma_without_oldest_none(merged);
    let selected = selection(before.peers, buffer, host, c, h, s);
    assert(without_oldest(merged, least(h, excess(merged.len(), c))) == merged);
    assert(selected =~= merged);
    lemma_thinning(selected, after.peers);
    assert forall|i: int| 0 <= i < before.peers.len() implies has_address(
        after.peers,
        (#[trigger] before.peers[i]).address,
    ) by {
        assert(all[i] == before.peers[i]);
    }
    assert forall|i: int| 0 <= i < buffer.len() && buffer[i].address != host implies has_address(
        after.peers,
        (#[trigger] buffer[i]).address,
    ) by {
        assert(marks[i] == false);
        assert(taken.contains(buffer[i]));
        let x = choose|x: int| 0 <= x < taken.len() && taken[x] == buffer[i];
        assert(all[before.peers.len() + x] == buffer[i]);
    }
}

/// One exchange makes two nodes acquainted. Node `b` starts a sampling cycle
/// and pushes; its request reaches node `a`, which pulls and so answers; the
/// answer reaches `b`. Where the views have room for the peers of both, `a`
/// then has `b` in its view and `b` has `a`.
pub proof fn lemma_exchange_acquaints(
    a: SamplingState,
    a_after: SamplingState,
    b: SamplingState,
    b_sent: SamplingState,
    b_after: SamplingState,
    partner: PeerView,
    request: PeerSamplingMessageView,
    answer: PeerSamplingMessageView,
)
    requires
        a.wf(),
        b.wf(),
        a.address != b.address,
        b.config.is_push(),
        a.config.is_pull(),
        a.view.peers.len() + b.view.peers.len() + 1 <= a.config.view_size(),
        a.view.peers.len() + b.view.peers.len() + 1 <= b.config.view_size(),
        cycled(b, b_sent, Some((partner, request))),
        received(a, a_after, request, Some(answer)),
        received(b_sent, b_after, answer, None),
    ensures
        has_address(a_after.view.peers, b.address),
        has_address(b_after.view.peers, a.address),
{
    let ca = a.config.view_size() as nat;
    let ha = a.config.healing_factor() as nat;
    let sa = a.config.swapping_factor() as nat;
    let cb = b.config.view_size() as nat;
    let hb = b.config.healing_factor() as nat;
    let sb = b.config.swapping_factor() as nat;
    // the request of b
    let sent = choose|sent: ViewState| #[trigger] cycle_steps(b, sent, b_sent.view, request);
    let pushed = request.view->0;
    lemma_buffer_built(b.view, sent, pushed, cb, hb);
    lemma_aged(sent.peers);
    // what a does with it
    let (answered, merged) = choose|answered: ViewState, merged: ViewState| #[trigger]
        receive_steps(a, answered, merged, a_after.view, request, Some(answer));
    let pulled = answer.view->0;
    lemma_buffer_built(a.view, answered, pulled, ca, ha);
    lemma_merge_with_room(answered, merged, pushed, ca, ha, sa);
    assert(pushed[0].address == b.address);
    assert(has_address(merged.peers, b.address));
    lemma_aged(merged.peers);
    // what b does with the answer
    let (kept, joined) = choose|kept: ViewState, joined: ViewState| #[trigger]
        receive_steps(b_sent, kept, joined, b_after.view, answer, None);
    assert(kept == b_sent.view);
    lemma_merge_with_room(kept, joined, pulled, cb, hb, sb);
    assert(pulled[0].address == a.address);
    assert(has_address(joined.peers, a.address));
    lemma_aged(joined.peers);
}

} // verus!
