//! The view of a node and the steps that change it.

use vstd::prelude::*;
use std::collections::VecDeque;
use crate::peer::{Peer, PeerView};
use crate::random::{is_rearrangement, random_index, rearranged_by, shuffle};
use crate::selection::{
    address_index,
    address_marks,
    aged,
    count_older,
    distinct_addresses,
    drawn_from,
    excess,
    foreign_peers,
    has_address,
    head_count,
    holds_addresses_of,
    is_thinning,
    least,
    lemma_aged,
    lemma_drawn_from,
    lemma_holds_addresses,
    lemma_merge_duplicates,
    lemma_partition_len,
    lemma_picked,
    lemma_picked_addresses,
    lemma_rearrangement,
    lemma_refreshed_queue,
    lemma_refreshed_queue_addresses,
    lemma_thinning,
    lemma_without_oldest,
    lemma_without_oldest_none,
    marked_in,
    merge_duplicates,
    oldest_marks,
    oldest_moved_to_end,
    peer_views,
    picked,
    presence_marks,
    refreshed_queue,
    selection,
    thinned_by,
    without_oldest,
};

verus! {

/// What a [`LocalView`] stands for in contracts: the node's own address, the
/// peers of the view in order, and the queue of peers that have not been
/// handed to the application yet, the next one first.
#[verifier::ext_equal]
pub ghost struct ViewState {
    pub host_address: Seq<char>,
    pub peers: Seq<PeerView>,
    pub queue: Seq<PeerView>,
}

impl ViewState {
    /// The invariant of a view: the node's own address is neither among the
    /// peers nor in the queue.
    pub open spec fn wf(self) -> bool {
        !has_address(self.peers, self.host_address) && !has_address(self.queue, self.host_address)
    }

    /// Whether the queue holds peers of the view only.
    pub open spec fn queue_in_view(self) -> bool {
        holds_addresses_of(self.peers, self.queue)
    }
}

/// Whether `after` is what a view `before` may be once `buffer` has been
/// merged into it: what the selection leaves, with peers taken out at random
/// as far as it exceeds `c`, and the queue brought in line.
pub open spec fn view_merged(
    before: ViewState,
    after: ViewState,
    buffer: Seq<PeerView>,
    c: nat,
    h: nat,
    s: nat,
) -> bool {
    let selected = selection(before.peers, buffer, before.host_address, c, h, s);
    &&& after.host_address == before.host_address
    &&& is_thinning(selected, after.peers)
    &&& after.peers.len() == least(selected.len(), c)
    &&& after.queue == refreshed_queue(before.queue, after.peers)
}

/// Whether `after` and `buffer` are what a view `before` and the buffer for
/// an exchange may be: the view was put in some order and its `h` oldest
/// peers moved to the end; the buffer holds the node itself with age 0 and
/// then the peers at the head of the view.
pub open spec fn buffer_built(before: ViewState, after: ViewState, buffer: Seq<PeerView>, c: nat, h: nat) -> bool {
    &&& after.host_address == before.host_address
    &&& after.queue == before.queue
    &&& exists|shuffled: Seq<PeerView>| #[trigger]
        is_rearrangement(before.peers, shuffled) && after.peers == oldest_moved_to_end(shuffled, h)
    &&& buffer == seq![PeerView { address: before.host_address, age: 0 }] + after.peers.take(
        head_count(c, after.peers.len()) as int,
    )
}

/// Whether `after` and `peer` are what a view `before` and the peer handed
/// to the application may be: the next peer of the queue, which leaves it;
/// with an empty queue, some peer of the view, or none where the view is
/// empty too.
pub open spec fn peer_given(before: ViewState, after: ViewState, peer: Option<PeerView>) -> bool {
    if before.queue.len() > 0 {
        peer == Some(before.queue[0]) && after == (ViewState { queue: before.queue.skip(1), ..before })
    } else {
        &&& after == before
        &&& peer is None <==> before.peers.len() == 0
        &&& peer is Some ==> before.peers.contains(peer->0)
    }
}

/// The peer as it stands in contracts, where there may be none.
pub open spec fn peer_model(peer: Option<Peer>) -> Option<PeerView> {
    match peer {
        Some(peer) => Some(peer@),
        None => None,
    }
}

/// A merge leaves a view within its bound and without the node itself: the
/// view holds `c` peers at most, no address twice, and not the address of the
/// node; and every peer of the queue is in the view.
pub proof fn lemma_merged_view_is_bounded(
    before: ViewState,
    after: ViewState,
    buffer: Seq<PeerView>,
    c: nat,
    h: nat,
    s: nat,
)
    requires
        before.wf(),
        view_merged(before, after, buffer, c, h, s),
    ensures
        after.peers.len() <= c,
        after.wf(),
        distinct_addresses(after.peers),
        after.queue_in_view(),
{
    let host = before.host_address;
    let taken = foreign_peers(buffer, host);
    let all = before.peers + taken;
    let merged = merge_duplicates(all);
    let k = least(h, excess(merged.len(), c));
    let healed = without_oldest(merged, k);
    let drop = least(s, excess(healed.len(), c)) as int;
    let selected = healed.skip(drop);
    assert(selected == selection(before.peers, buffer, host, c, h, s));
    lemma_merge_duplicates(all);
    lemma_picked(merged, oldest_marks(merged, k), false);
    lemma_thinning(selected, after.peers);
    assert(distinct_addresses(selected)) by {
        assert forall|i: int, j: int| 0 <= i < j < selected.len() implies selected[i].address
            != selected[j].address by {
            assert(selected[i] == healed[i + drop] && selected[j] == healed[j + drop]);
        }
    }
    assert(!has_address(after.peers, host)) by {
        if has_address(after.peers, host) {
            lemma_drawn_from(after.peers, selected, host);
            let x = choose|x: int| 0 <= x < selected.len() && (#[trigger] selected[x]).address == host;
            assert(healed[x + drop].address == host);
            lemma_picked_addresses(merged, oldest_marks(merged, k), false, host);
            lemma_drawn_from(merged, all, host);
            let y = choose|y: int| 0 <= y < all.len() && (#[trigger] all[y]).address == host;
            if y < before.peers.len() {
                assert(before.peers[y].address == host);
            } else {
                assert(taken[y - before.peers.len()].address == host);
                lemma_picked_addresses(buffer, address_marks(buffer, host), false, host);
            }
        }
    }
    lemma_refreshed_queue(before.queue, after.peers);
    assert(!has_address(after.queue, host)) by {
        if has_address(after.queue, host) {
            lemma_refreshed_queue_addresses(before.queue, after.peers, host);
        }
    }
}

/// The bounded sample of the network that a node keeps.
pub struct LocalView {
    host_address: String,
    peers: Vec<Peer>,
    queue: VecDeque<Peer>,
}

impl View for LocalView {
    type V = ViewState;

    closed spec fn view(&self) -> ViewState {
        ViewState {
            host_address: self.host_address@,
            peers: peer_views(self.peers@),
            queue: peer_views(self.queue@),
        }
    }
}

impl LocalView {
    /// An empty view for the node at `host_address`.
    pub fn new(host_address: String) -> (view: LocalView)
        ensures
            view@ == (ViewState { host_address: host_address@, peers: Seq::empty(), queue: Seq::empty() }),
            view@.wf(),
    {
        let view = LocalView { host_address, peers: Vec::new(), queue: VecDeque::new() };
        assert(view@.peers =~= Seq::empty());
        assert(view@.queue =~= Seq::empty());
        view
    }

    /// The address of the node that the view belongs to.
    pub fn host_address(&self) -> (address: &String)
        ensures
            address@ == self@.host_address,
    {
        &self.host_address
    }

    /// The number of peers in the view.
    pub fn len(&self) -> (len: usize)
        ensures
            len == self@.peers.len(),
    {
        self.peers.len()
    }

    /// A copy of the peers of the view, in order.
    pub fn peers(&self) -> (peers: Vec<Peer>)
        ensures
            peer_views(peers@) == self@.peers,
    {
        let mut peers: Vec<Peer> = Vec::new();
        let mut i: usize = 0;
        while i < self.peers.len()
            invariant
                i <= self.peers.len(),
                peers@.len() == i,
                forall|k: int| 0 <= k < i ==> peers@[k]@ == self.peers@[k]@,
            decreases self.peers.len() - i,
        {
            peers.push(self.peers[i].clone());
            i += 1;
        }
        assert(peer_views(peers@) =~= self@.peers);
        peers
    }

    /// Some peer of the view, picked at random, to exchange views with; none
    /// where the view is empty.
    pub fn select_peer(&self) -> (partner: Option<Peer>)
        ensures
            partner is None <==> self@.peers.len() == 0,
            partner is Some ==> self@.peers.contains(partner->0@),
    {
        if self.peers.len() == 0 {
            None
        } else {
            let selected = random_index(self.peers.len());
            let partner = self.peers[selected].clone();
            assert(self@.peers[selected as int] == partner@);
            Some(partner)
        }
    }

    /// Puts the peers of the view in a random order.
    pub fn permute(&mut self)
        ensures
            is_rearrangement(old(self)@.peers, final(self)@.peers),
            final(self)@.host_address == old(self)@.host_address,
            final(self)@.queue == old(self)@.queue,
            final(self)@.peers.len() == old(self)@.peers.len(),
            old(self)@.wf() ==> final(self)@.wf(),
            distinct_addresses(old(self)@.peers) ==> distinct_addresses(final(self)@.peers),
            holds_addresses_of(final(self)@.peers, old(self)@.peers),
    {
        let ghost before = self.peers@;
        shuffle(&mut self.peers);
        proof {
            let (from, to) = choose|from: Seq<int>, to: Seq<int>| rearranged_by(before, self.peers@, from, to);
            assert(rearranged_by(peer_views(before), peer_views(self.peers@), from, to));
            lemma_rearrangement(old(self)@.peers, self@.peers);
            lemma_holds_addresses(self@.peers, old(self)@.peers, Seq::empty());
            if old(self)@.wf() && has_address(self@.peers, self@.host_address) {
                lemma_drawn_from(self@.peers, old(self)@.peers, self@.host_address);
            }
        }
    }

    /// The peers at the head of the view that go into an exchange buffer when
    /// the view size is `c`.
    pub fn head(&self, c: usize) -> (head: Vec<Peer>)
        ensures
            peer_views(head@) == self@.peers.take(head_count(c as nat, self@.peers.len()) as int),
    {
        let wanted: usize = if c / 2 >= 1 {
            c / 2 - 1
        } else {
            0
        };
        let count: usize = if wanted < self.peers.len() {
            wanted
        } else {
            self.peers.len()
        };
        let mut head: Vec<Peer> = Vec::new();
        let mut i: usize = 0;
        while i < count
            invariant
                i <= count <= self.peers.len(),
                head@.len() == i,
                forall|k: int| 0 <= k < i ==> head@[k]@ == self.peers@[k]@,
            decreases count - i,
        {
            head.push(self.peers[i].clone());
            i += 1;
        }
        assert(peer_views(head@) =~= self@.peers.take(count as int));
        head
    }

    /// Advances the age of every peer of the view by one; an age at the
    /// maximum stays there.
    pub fn increase_age(&mut self)
        ensures
            final(self)@ == (ViewState { peers: aged(old(self)@.peers), ..old(self)@ }),
            final(self)@.peers.len() == old(self)@.peers.len(),
            old(self)@.wf() ==> final(self)@.wf(),
            distinct_addresses(old(self)@.peers) ==> distinct_addresses(final(self)@.peers),
            holds_addresses_of(final(self)@.peers, old(self)@.peers),
    {
        proof {
            lemma_aged(old(self)@.peers);
            assert forall|k: int| 0 <= k < old(self)@.peers.len() implies has_address(
                aged(old(self)@.peers),
                (#[trigger] old(self)@.peers[k]).address,
            ) by {
                assert(has_address(old(self)@.peers, old(self)@.peers[k].address));
            }
        }
        let mut i: usize = 0;
        while i < self.peers.len()
            invariant
                i <= self.peers.len(),
                self.peers@.len() == old(self).peers@.len(),
                self.host_address == old(self).host_address,
                self.queue == old(self).queue,
                forall|k: int| 0 <= k < i ==> (#[trigger] self.peers@[k])@ == aged(old(self)@.peers)[k],
                forall|k: int| i <= k < self.peers@.len() ==> self.peers@[k] == old(self).peers@[k],
            decreases self.peers.len() - i,
        {
            self.peers[i].increment_age();
            i += 1;
        }
        assert(self@.peers =~= aged(old(self)@.peers));
    }

    /// Drops peers from the head of the view: as many as the view exceeds
    /// `c`, and `s` at most.
    pub fn remove_head(&mut self, c: usize, s: usize)
        ensures
            final(self)@ == (ViewState {
                peers: old(self)@.peers.skip(
                    least(s as nat, excess(old(self)@.peers.len(), c as nat)) as int,
                ),
                ..old(self)@
            }),
            final(self)@.peers.len() <= old(self)@.peers.len(),
            drawn_from(final(self)@.peers, old(self)@.peers),
            old(self)@.wf() ==> final(self)@.wf(),
            distinct_addresses(old(self)@.peers) ==> distinct_addresses(final(self)@.peers),
    {
        let over: usize = if self.peers.len() > c {
            self.peers.len() - c
        } else {
            0
        };
        let count: usize = if s < over {
            s
        } else {
            over
        };
        let rest = self.peers.split_off(count);
        self.peers = rest;
        proof {
            let before = old(self)@.peers;
            assert(self@.peers =~= before.skip(count as int));
            assert forall|k: int| 0 <= k < self@.peers.len() implies before.contains(
                #[trigger] self@.peers[k],
            ) by {
                assert(before[k + count] == self@.peers[k]);
            }
            if distinct_addresses(before) {
                assert forall|i: int, j: int| 0 <= i < j < self@.peers.len() implies self@.peers[i].address
                    != self@.peers[j].address by {
                    assert(self@.peers[i] == before[i + count] && self@.peers[j] == before[j + count]);
                }
            }
            if old(self)@.wf() && has_address(self@.peers, self@.host_address) {
                lemma_drawn_from(self@.peers, before, self@.host_address);
            }
        }
    }

    /// Appends the peers of `buffer` that are not the node itself.
    pub fn take_in(&mut self, buffer: &Vec<Peer>)
        ensures
            final(self)@ == (ViewState {
                peers: old(self)@.peers + foreign_peers(peer_views(buffer@), old(self)@.host_address),
                ..old(self)@
            }),
            old(self)@.wf() ==> final(self)@.wf(),
            holds_addresses_of(final(self)@.peers, old(self)@.peers),
    {
        let ghost incoming = peer_views(buffer@);
        let ghost marks = address_marks(incoming, self@.host_address);
        let mut i: usize = 0;
        assert(self@.peers =~= old(self)@.peers + picked(incoming.take(0), marks.take(0), false));
        while i < buffer.len()
            invariant
                i <= buffer.len(),
                self.host_address == old(self).host_address,
                self.queue == old(self).queue,
                incoming == peer_views(buffer@),
                marks == address_marks(incoming, old(self)@.host_address),
                self@.peers == old(self)@.peers + picked(incoming.take(i as int), marks.take(i as int), false),
            decreases buffer.len() - i,
        {
            proof {
                assert(incoming.take(i + 1).drop_last() =~= incoming.take(i as int));
                assert(marks.take(i + 1).drop_last() =~= marks.take(i as int));
                assert(incoming.take(i + 1).last() == buffer@[i as int]@);
                assert(marks.take(i + 1).last() == (buffer@[i as int]@.address == old(self)@.host_address));
            }
            let ghost so_far = self@.peers;
            if !buffer[i].has_address(&self.host_address) {
                self.peers.push(buffer[i].clone());
                assert(self@.peers =~= so_far.push(buffer@[i as int]@));
            }
            i += 1;
            assert(self@.peers =~= old(self)@.peers + picked(incoming.take(i as int), marks.take(i as int), false));
        }
        proof {
            assert(incoming.take(buffer.len() as int) =~= incoming);
            assert(marks.take(buffer.len() as int) =~= marks);
            assert forall|k: int| 0 <= k < old(self)@.peers.len() implies has_address(
                self@.peers,
                (#[trigger] old(self)@.peers[k]).address,
            ) by {
                assert(self@.peers[k] == old(self)@.peers[k]);
            }
            if old(self)@.wf() && has_address(self@.peers, self@.host_address) {
                let host = self@.host_address;
                let taken = foreign_peers(incoming, host);
                let k = choose|k: int| 0 <= k < self@.peers.len() && (#[trigger] self@.peers[k]).address == host;
                if k < old(self)@.peers.len() {
                    assert(old(self)@.peers[k].address == host);
                } else {
                    assert(taken[k - old(self)@.peers.len()].address == host);
                    lemma_picked_addresses(incoming, marks, false, host);
                }
            }
        }
    }

    /// Leaves one peer for each address: the one with the smallest age, at
    /// the place where the address first stood.
    pub fn remove_duplicates(&mut self)
        ensures
            final(self)@ == (ViewState { peers: merge_duplicates(old(self)@.peers), ..old(self)@ }),
            distinct_addresses(final(self)@.peers),
            drawn_from(final(self)@.peers, old(self)@.peers),
            old(self)@.wf() ==> final(self)@.wf(),
    {
        let mut merged: Vec<Peer> = Vec::new();
        let mut i: usize = 0;
        assert(peer_views(merged@) =~= merge_duplicates(self@.peers.take(0)));
        while i < self.peers.len()
            invariant
                i <= self.peers.len(),
                peer_views(merged@) == merge_duplicates(self@.peers.take(i as int)),
            decreases self.peers.len() - i,
        {
            let ghost so_far = peer_views(merged@);
            proof {
                lemma_merge_duplicates(self@.peers.take(i as int));
                assert(self@.peers.take(i + 1).drop_last() =~= self@.peers.take(i as int));
                assert(self@.peers.take(i + 1).last() == self.peers@[i as int]@);
            }
            match find_address(&merged, &self.peers[i]) {
                Some(at) => {
                    proof {
                        let address = self.peers@[i as int]@.address;
                        assert(so_far[at as int].address == address);
                        assert(has_address(so_far, address));
                        assert(address_index(so_far, address) == at);
                    }
                    if self.peers[i].age() < merged[at].age() {
                        merged[at] = self.peers[i].clone();
                        assert(peer_views(merged@) =~= so_far.update(at as int, self.peers@[i as int]@));
                    }
                },
                None => {
                    merged.push(self.peers[i].clone());
                    assert(peer_views(merged@) =~= so_far.push(self.peers@[i as int]@));
                },
            }
            i += 1;
        }
        proof {
            assert(self@.peers.take(self.peers.len() as int) =~= self@.peers);
            lemma_merge_duplicates(self@.peers);
        }
        self.peers = merged;
        proof {
            if old(self)@.wf() && has_address(self@.peers, self@.host_address) {
                lemma_drawn_from(self@.peers, old(self)@.peers, self@.host_address);
            }
        }
    }

    fn mark_oldest(&self, k: usize) -> (marks: Vec<bool>)
        ensures
            marks@ == oldest_marks(self@.peers, k as nat),
    {
        let n = self.peers.len();
        let mut marks: Vec<bool> = Vec::new();
        let mut i: usize = 0;
        while i < n
            invariant
                i <= n,
                n == self.peers.len(),
                marks@.len() == i,
                forall|x: int| 0 <= x < i ==> marks@[x] == (count_older(self@.peers, x, n as int) < k),
            decreases n - i,
        {
            let mut older: usize = 0;
            let mut j: usize = 0;
            while j < n
                invariant
                    j <= n,
                    i < n,
                    n == self.peers.len(),
                    older <= j,
                    older == count_older(self@.peers, i as int, j as int),
                decreases n - j,
            {
                let a = self.peers[j].age();
                let b = self.peers[i].age();
                assert(self@.peers[j as int].age == a && self@.peers[i as int].age == b);
                if a > b || (a == b && j > i) {
                    older += 1;
                }
                j += 1;
            }
            marks.push(older < k);
            i += 1;
        }
        assert(marks@ =~= oldest_marks(self@.peers, k as nat));
        marks
    }

    /// Moves the `h` oldest peers to the end of the view. The peers that stay
    /// and those that move keep their order among themselves.
    pub fn move_oldest_to_end(&mut self, h: usize)
        ensures
            final(self)@ == (ViewState { peers: oldest_moved_to_end(old(self)@.peers, h as nat), ..old(self)@ }),
            final(self)@.peers.len() == old(self)@.peers.len(),
            drawn_from(final(self)@.peers, old(self)@.peers),
            old(self)@.wf() ==> final(self)@.wf(),
            distinct_addresses(old(self)@.peers) ==> distinct_addresses(final(self)@.peers),
            holds_addresses_of(final(self)@.peers, old(self)@.peers),
    {
        let marks = self.mark_oldest(h);
        let mut moved = pick(&self.peers, &marks, false);
        let mut oldest = pick(&self.peers, &marks, true);
        let ghost young = peer_views(moved@);
        let ghost old_ones = peer_views(oldest@);
        moved.append(&mut oldest);
        assert(peer_views(moved@) =~= young + old_ones);
        self.peers = moved;
        proof {
            let before = old(self)@.peers;
            lemma_picked(before, marks@, false);
            lemma_picked(before, marks@, true);
            lemma_partition_len(before, marks@);
            assert forall|k: int| 0 <= k < self@.peers.len() implies before.contains(
                #[trigger] self@.peers[k],
            ) by {
                if k < young.len() {
                    assert(marked_in(before, marks@, false, young[k]));
                } else {
                    assert(marked_in(before, marks@, true, old_ones[k - young.len()]));
                }
            }
            if distinct_addresses(before) {
                assert forall|i: int, j: int| 0 <= i < j < self@.peers.len() implies self@.peers[i].address
                    != self@.peers[j].address by {
                    if i < young.len() && j >= young.len() {
                        assert(marked_in(before, marks@, false, young[i]));
                        assert(marked_in(before, marks@, true, old_ones[j - young.len()]));
                        let x = choose|x: int|
                            0 <= x < before.len() && #[trigger] before[x] == young[i] && marks@[x] == false;
                        let y = choose|y: int|
                            0 <= y < before.len() && #[trigger] before[y] == old_ones[j - young.len()] && marks@[y]
                                == true;
                        assert(x != y);
                    } else if j < young.len() {
                        assert(young[i].address != young[j].address);
                    } else {
                        assert(old_ones[i - young.len()].address != old_ones[j - young.len()].address);
                    }
                }
            }
            if old(self)@.wf() && has_address(self@.peers, self@.host_address) {
                lemma_drawn_from(self@.peers, before, self@.host_address);
            }
            assert forall|k: int| 0 <= k < before.len() implies has_address(
                self@.peers,
                (#[trigger] before[k]).address,
            ) by {
                if marks@[k] {
                    assert(old_ones.contains(before[k]));
                    let x = choose|x: int| 0 <= x < old_ones.len() && old_ones[x] == before[k];
                    assert(self@.peers[young.len() + x] == before[k]);
                } else {
                    assert(young.contains(before[k]));
                    let x = choose|x: int| 0 <= x < young.len() && young[x] == before[k];
                    assert(self@.peers[x] == before[k]);
                }
            }
        }
    }

    /// Takes the oldest peers out of the view: as many as the view exceeds
    /// `c`, and `h` at most. Among peers of one age the later ones count as
    /// older.
    pub fn remove_old_items(&mut self, c: usize, h: usize)
        ensures
            final(self)@ == (ViewState {
                peers: without_oldest(
                    old(self)@.peers,
                    least(h as nat, excess(old(self)@.peers.len(), c as nat)),
                ),
                ..old(self)@
            }),
            final(self)@.peers.len() == old(self)@.peers.len() - least(
                h as nat,
                excess(old(self)@.peers.len(), c as nat),
            ),
            drawn_from(final(self)@.peers, old(self)@.peers),
            old(self)@.wf() ==> final(self)@.wf(),
            distinct_addresses(old(self)@.peers) ==> distinct_addresses(final(self)@.peers),
    {
        let over: usize = if self.peers.len() > c {
            self.peers.len() - c
        } else {
            0
        };
        let count: usize = if h < over {
            h
        } else {
            over
        };
        proof {
            lemma_without_oldest(self@.peers, count as nat);
            lemma_picked(self@.peers, oldest_marks(self@.peers, count as nat), false);
            assert forall|k: int| 0 <= k < without_oldest(self@.peers, count as nat).len() implies self@.peers.contains(
                #[trigger] without_oldest(self@.peers, count as nat)[k],
            ) by {
                assert(marked_in(
                    self@.peers,
                    oldest_marks(self@.peers, count as nat),
                    false,
                    without_oldest(self@.peers, count as nat)[k],
                ));
            }
        }
        if count > 0 {
            let marks = self.mark_oldest(count);
            let kept = pick(&self.peers, &marks, false);
            self.peers = kept;
        } else {
            proof {
                lemma_without_oldest_none(self@.peers);
            }
        }
        proof {
            if old(self)@.wf() && has_address(self@.peers, self@.host_address) {
                lemma_drawn_from(self@.peers, old(self)@.peers, self@.host_address);
            }
        }
    }

    /// Takes peers out at random until the view holds `c` at most.
    pub fn remove_at_random(&mut self, c: usize)
        ensures
            final(self)@.host_address == old(self)@.host_address,
            final(self)@.queue == old(self)@.queue,
            is_thinning(old(self)@.peers, final(self)@.peers),
            final(self)@.peers.len() == least(old(self)@.peers.len(), c as nat),
            drawn_from(final(self)@.peers, old(self)@.peers),
            old(self)@.wf() ==> final(self)@.wf(),
            distinct_addresses(old(self)@.peers) ==> distinct_addresses(final(self)@.peers),
    {
        let ghost mut from: Seq<int> = Seq::new(self.peers.len() as nat, |i: int| i);
        while self.peers.len() > c
            invariant
                self.host_address == old(self).host_address,
                self.queue == old(self).queue,
                thinned_by(old(self)@.peers, self@.peers, from),
                self.peers.len() <= old(self).peers.len(),
                self.peers.len() >= least(old(self)@.peers.len(), c as nat),
            decreases self.peers.len(),
        {
            let index = random_index(self.peers.len());
            let ghost before = self@.peers;
            let ghost from_before = from;
            self.peers.remove(index);
            proof {
                from = from_before.remove(index as int);
                assert(self@.peers =~= before.remove(index as int));
                assert forall|i: int| 0 <= i < self@.peers.len() implies 0 <= #[trigger] from[i] < old(self)@.peers.len() && self@.peers[i] == old(self)@.peers[from[i]] by {
                    if i < index {
                        assert(from[i] == from_before[i]);
                    } else {
                        assert(from[i] == from_before[i + 1]);
                    }
                }
                assert forall|i: int, j: int| 0 <= i < j < self@.peers.len() implies from[i] < from[j] by {
                    let x = if i < index {
                        i
                    } else {
                        i + 1
                    };
                    let y = if j < index {
                        j
                    } else {
                        j + 1
                    };
                    assert(from[i] == from_before[x] && from[j] == from_before[y]);
                }
            }
        }
        proof {
            lemma_thinning(old(self)@.peers, self@.peers);
            if old(self)@.wf() && has_address(self@.peers, self@.host_address) {
                lemma_drawn_from(self@.peers, old(self)@.peers, self@.host_address);
            }
        }
    }

    /// Brings the queue in line with the view: peers that have left the view
    /// leave the queue, and peers of the view that the queue did not hold
    /// join it at the end.
    pub fn update_queue(&mut self)
        ensures
            final(self)@ == (ViewState {
                queue: refreshed_queue(old(self)@.queue, old(self)@.peers),
                ..old(self)@
            }),
            final(self)@.queue_in_view(),
            old(self)@.wf() ==> final(self)@.wf(),
    {
        let ghost peers = self@.peers;
        let ghost waiting = self@.queue;
        let ghost stay = presence_marks(waiting, peers);
        let ghost join = presence_marks(peers, waiting);
        let mut queue: VecDeque<Peer> = VecDeque::new();
        let mut i: usize = 0;
        assert(peer_views(queue@) =~= picked(waiting.take(0), stay.take(0), true));
        while i < self.queue.len()
            invariant
                i <= self.queue.len(),
                peers == self@.peers,
                waiting == self@.queue,
                stay == presence_marks(waiting, peers),
                peer_views(queue@) == picked(waiting.take(i as int), stay.take(i as int), true),
            decreases self.queue.len() - i,
        {
            let ghost so_far = peer_views(queue@);
            proof {
                assert(waiting.take(i + 1).drop_last() =~= waiting.take(i as int));
                assert(stay.take(i + 1).drop_last() =~= stay.take(i as int));
                assert(waiting.take(i + 1).last() == self.queue@[i as int]@);
                assert(stay.take(i + 1).last() == has_address(peers, self.queue@[i as int]@.address));
            }
            if find_address(&self.peers, &self.queue[i]).is_some() {
                queue.push_back(self.queue[i].clone());
                assert(peer_views(queue@) =~= so_far.push(self.queue@[i as int]@));
            }
            i += 1;
        }
        let ghost kept = peer_views(queue@);
        assert(waiting.take(self.queue.len() as int) =~= waiting);
        assert(stay.take(self.queue.len() as int) =~= stay);
        let mut j: usize = 0;
        assert(peer_views(queue@) =~= kept + picked(peers.take(0), join.take(0), false));
        while j < self.peers.len()
            invariant
                j <= self.peers.len(),
                peers == self@.peers,
                waiting == self@.queue,
                join == presence_marks(peers, waiting),
                peer_views(queue@) == kept + picked(peers.take(j as int), join.take(j as int), false),
            decreases self.peers.len() - j,
        {
            let ghost so_far = peer_views(queue@);
            proof {
                assert(peers.take(j + 1).drop_last() =~= peers.take(j as int));
                assert(join.take(j + 1).drop_last() =~= join.take(j as int));
                assert(peers.take(j + 1).last() == self.peers@[j as int]@);
                assert(join.take(j + 1).last() == has_address(waiting, self.peers@[j as int]@.address));
            }
            if !in_queue(&self.queue, &self.peers[j]) {
                queue.push_back(self.peers[j].clone());
                assert(peer_views(queue@) =~= so_far.push(self.peers@[j as int]@));
                assert(so_far.push(self.peers@[j as int]@) =~= kept + picked(
                    peers.take(j + 1),
                    join.take(j + 1),
                    false,
                ));
            }
            j += 1;
        }
        assert(peers.take(self.peers.len() as int) =~= peers);
        assert(join.take(self.peers.len() as int) =~= join);
        self.queue = queue;
        proof {
            lemma_refreshed_queue(waiting, peers);
            if old(self)@.wf() && has_address(self@.queue, self@.host_address) {
                lemma_refreshed_queue_addresses(waiting, peers, self@.host_address);
            }
        }
    }

    /// Merges a view received from another node into this one, for a view
    /// size of `c`, a healing factor of `h` and a swapping factor of `s`: the
    /// foreign peers of the buffer are appended; duplicates are merged; of
    /// what exceeds `c`, the oldest peers are taken out, `h` at most, then
    /// peers at the head, `s` at most, then peers at random; and the queue is
    /// brought in line with the view.
    pub fn select(&mut self, c: usize, h: usize, s: usize, buffer: &Vec<Peer>)
        ensures
            view_merged(old(self)@, final(self)@, peer_views(buffer@), c as nat, h as nat, s as nat),
            old(self)@.wf() ==> final(self)@.wf(),
            final(self)@.peers.len() <= c,
            distinct_addresses(final(self)@.peers),
            final(self)@.queue_in_view(),
    {
        self.take_in(buffer);
        self.remove_duplicates();
        self.remove_old_items(c, h);
        self.remove_head(c, s);
        self.remove_at_random(c);
        self.update_queue();
    }

    /// A peer for the application: the next peer of the queue, which leaves
    /// it; with an empty queue, some peer of the view picked at random, or
    /// none where the view is empty too.
    pub fn get_peer(&mut self) -> (peer: Option<Peer>)
        ensures
            peer_given(old(self)@, final(self)@, peer_model(peer)),
            final(self)@.peers == old(self)@.peers,
            final(self)@.host_address == old(self)@.host_address,
            old(self)@.wf() ==> final(self)@.wf(),
            old(self)@.queue_in_view() ==> final(self)@.queue_in_view(),
    {
        match self.queue.pop_front() {
            Some(peer) => {
                assert(self@.queue =~= old(self)@.queue.skip(1));
                assert(old(self)@.queue[0] == peer@);
                proof {
                    if old(self)@.queue_in_view() {
                        assert forall|k: int| 0 <= k < self@.queue.len() implies has_address(
                            self@.peers,
                            (#[trigger] self@.queue[k]).address,
                        ) by {
                            assert(self@.queue[k] == old(self)@.queue[k + 1]);
                        }
                    }
                    if has_address(self@.queue, self@.host_address) {
                        let k = choose|k: int|
                            0 <= k < self@.queue.len() && (#[trigger] self@.queue[k]).address == self@.host_address;
                        assert(old(self)@.queue[k + 1].address == self@.host_address);
                    }
                }
                Some(peer)
            },
            None => {
                assert(self@.queue =~= old(self)@.queue);
                self.select_peer()
            },
        }
    }
}

impl LocalView {
    /// Empties the view and the queue.
    pub fn clear(&mut self)
        ensures
            final(self)@ == (ViewState { peers: Seq::empty(), queue: Seq::empty(), ..old(self)@ }),
            final(self)@.wf(),
            final(self)@.queue_in_view(),
    {
        self.peers.clear();
        self.queue.clear();
        assert(self@.peers =~= Seq::empty());
        assert(self@.queue =~= Seq::empty());
    }
}

/// The first position in `peers` of a peer with the address of `peer`.
fn find_address(peers: &Vec<Peer>, peer: &Peer) -> (position: Option<usize>)
    ensures
        match position {
            Some(i) => i < peers.len() && peers@[i as int]@.address == peer@.address,
            None => !has_address(peer_views(peers@), peer@.address),
        },
        position is Some ==> has_address(peer_views(peers@), peer@.address),
{
    let mut i: usize = 0;
    while i < peers.len()
        invariant
            i <= peers.len(),
            forall|k: int| 0 <= k < i ==> (#[trigger] peer_views(peers@)[k]).address != peer@.address,
        decreases peers.len() - i,
    {
        if peers[i].same_address(peer) {
            assert(peer_views(peers@)[i as int].address == peer@.address);
            return Some(i);
        }
        i += 1;
    }
    None
}

/// Whether the queue holds a peer with the address of `peer`.
fn in_queue(queue: &VecDeque<Peer>, peer: &Peer) -> (found: bool)
    ensures
        found == has_address(peer_views(queue@), peer@.address),
{
    let mut i: usize = 0;
    while i < queue.len()
        invariant
            i <= queue.len(),
            forall|k: int| 0 <= k < i ==> (#[trigger] peer_views(queue@)[k]).address != peer@.address,
        decreases queue.len() - i,
    {
        if queue[i].same_address(peer) {
            assert(peer_views(queue@)[i as int].address == peer@.address);
            return true;
        }
        i += 1;
    }
    false
}

/// Copies the peers whose mark is `want`, in order.
fn pick(peers: &Vec<Peer>, marks: &Vec<bool>, want: bool) -> (chosen: Vec<Peer>)
    requires
        marks.len() == peers.len(),
    ensures
        peer_views(chosen@) == picked(peer_views(peers@), marks@, want),
{
    let ghost all = peer_views(peers@);
    let mut chosen: Vec<Peer> = Vec::new();
    let mut i: usize = 0;
    assert(peer_views(chosen@) =~= picked(all.take(0), marks@.take(0), want));
    while i < peers.len()
        invariant
            i <= peers.len(),
            marks.len() == peers.len(),
            all == peer_views(peers@),
            peer_views(chosen@) == picked(all.take(i as int), marks@.take(i as int), want),
        decreases peers.len() - i,
    {
        let ghost so_far = peer_views(chosen@);
        proof {
            assert(all.take(i + 1).drop_last() =~= all.take(i as int));
            assert(marks@.take(i + 1).drop_last() =~= marks@.take(i as int));
            assert(all.take(i + 1).last() == peers@[i as int]@);
            assert(marks@.take(i + 1).last() == marks@[i as int]);
        }
        if marks[i] == want {
            chosen.push(peers[i].clone());
            assert(peer_views(chosen@) =~= so_far.push(peers@[i as int]@));
        }
        i += 1;
    }
    assert(all.take(peers.len() as int) =~= all);
    assert(marks@.take(peers.len() as int) =~= marks@);
    chosen
}

} // verus!
