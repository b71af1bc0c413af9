//! Lists of peers: how a view is merged, healed, swapped and cut, stated on
//! sequences, with the facts that the steps of a view rest on.

use vstd::prelude::*;
use crate::peer::{next_age, Peer, PeerView};
use crate::random::{is_rearrangement, rearranged_by};

verus! {


/// The peers of a list as they stand in contracts.
pub open spec fn peer_views(peers: Seq<Peer>) -> Seq<PeerView> {
    Seq::new(peers.len(), |i: int| peers[i]@)
}

/// Whether some peer of the list has the given address.
pub open spec fn has_address(peers: Seq<PeerView>, address: Seq<char>) -> bool {
    exists|i: int| 0 <= i < peers.len() && (#[trigger] peers[i]).address == address
}

/// Whether no address occurs twice in the list.
pub open spec fn distinct_addresses(peers: Seq<PeerView>) -> bool {
    forall|i: int, j: int| 0 <= i < j < peers.len() ==> peers[i].address != peers[j].address
}

/// By how much a list of `len` items exceeds `limit`.
pub open spec fn excess(len: nat, limit: nat) -> nat {
    if len > limit {
        (len - limit) as nat
    } else {
        0
    }
}

/// The smaller of two numbers.
pub open spec fn least(a: nat, b: nat) -> nat {
    if a < b {
        a
    } else {
        b
    }
}

/// How many peers of a view of `len` peers go into an exchange buffer when
/// the view size is `c`: one less than half of `c`, as far as there are any.
pub open spec fn head_count(c: nat, len: nat) -> nat {
    least(
        if c / 2 >= 1 {
            (c / 2 - 1) as nat
        } else {
            0
        },
        len,
    )
}

/// The list with every age advanced by one.
pub open spec fn aged(peers: Seq<PeerView>) -> Seq<PeerView> {
    Seq::new(peers.len(), |i: int| PeerView { address: peers[i].address, age: next_age(peers[i].age) })
}

/// The peers among the first ones of the list whose mark is `want`, in
/// order. `marks` holds one mark for each peer.
pub open spec fn picked(peers: Seq<PeerView>, marks: Seq<bool>, want: bool) -> Seq<PeerView>
    decreases peers.len(),
{
    if peers.len() == 0 {
        Seq::empty()
    } else if marks.last() == want {
        picked(peers.drop_last(), marks.drop_last(), want).push(peers.last())
    } else {
        picked(peers.drop_last(), marks.drop_last(), want)
    }
}

/// Whether `peer` stands in the list at a position whose mark is `want`.
pub open spec fn marked_in(peers: Seq<PeerView>, marks: Seq<bool>, want: bool, peer: PeerView) -> bool {
    exists|j: int| 0 <= j < peers.len() && #[trigger] peers[j] == peer && marks[j] == want
}

/// For each peer of `peers`, whether its address is `address`.
pub open spec fn address_marks(peers: Seq<PeerView>, address: Seq<char>) -> Seq<bool> {
    Seq::new(peers.len(), |i: int| peers[i].address == address)
}

/// For each peer of `peers`, whether its address occurs in `others`.
pub open spec fn presence_marks(peers: Seq<PeerView>, others: Seq<PeerView>) -> Seq<bool> {
    Seq::new(peers.len(), |i: int| has_address(others, peers[i].address))
}

/// The peers of `buffer` that are not the node itself, in order.
pub open spec fn foreign_peers(buffer: Seq<PeerView>, host_address: Seq<char>) -> Seq<PeerView> {
    picked(buffer, address_marks(buffer, host_address), false)
}

/// The position of the peer with the given address; it is the only one where
/// no address occurs twice.
pub open spec fn address_index(peers: Seq<PeerView>, address: Seq<char>) -> int {
    choose|i: int| 0 <= i < peers.len() && (#[trigger] peers[i]).address == address
}

/// The list with one peer for each address: the one with the smallest age,
/// the earliest of them among equals, at the place where the address first
/// occurred.
pub open spec fn merge_duplicates(peers: Seq<PeerView>) -> Seq<PeerView>
    decreases peers.len(),
{
    if peers.len() == 0 {
        Seq::empty()
    } else {
        let merged = merge_duplicates(peers.drop_last());
        let peer = peers.last();
        if has_address(merged, peer.address) {
            let at = address_index(merged, peer.address);
            if peer.age < merged[at].age {
                merged.update(at, peer)
            } else {
                merged
            }
        } else {
            merged.push(peer)
        }
    }
}

/// Whether the peer at `j` counts as older than the one at `i`: by its age,
/// and among peers of one age by standing later in the list.
pub open spec fn older_than(peers: Seq<PeerView>, j: int, i: int) -> bool {
    peers[j].age > peers[i].age || (peers[j].age == peers[i].age && j > i)
}

/// How many of the first `n` peers count as older than the one at `i`.
pub open spec fn count_older(peers: Seq<PeerView>, i: int, n: int) -> nat
    decreases n,
{
    if n <= 0 {
        0
    } else {
        count_older(peers, i, n - 1) + if older_than(peers, n - 1, i) {
            1nat
        } else {
            0nat
        }
    }
}

/// For each peer, whether it is among the `k` oldest of the list.
pub open spec fn oldest_marks(peers: Seq<PeerView>, k: nat) -> Seq<bool> {
    Seq::new(peers.len(), |i: int| count_older(peers, i, peers.len() as int) < k)
}

/// The list without its `k` oldest peers.
pub open spec fn without_oldest(peers: Seq<PeerView>, k: nat) -> Seq<PeerView> {
    picked(peers, oldest_marks(peers, k), false)
}

/// The list with its `h` oldest peers moved to the end; the peers that stay
/// and those that move keep their order among themselves.
pub open spec fn oldest_moved_to_end(peers: Seq<PeerView>, h: nat) -> Seq<PeerView> {
    picked(peers, oldest_marks(peers, h), false) + picked(peers, oldest_marks(peers, h), true)
}

/// Whether `after` is `before` with some peers taken out, where `from` says
/// for each position of `after` where its peer stood in `before`.
pub open spec fn thinned_by(before: Seq<PeerView>, after: Seq<PeerView>, from: Seq<int>) -> bool {
    &&& from.len() == after.len()
    &&& forall|i: int|
        0 <= i < after.len() ==> 0 <= #[trigger] from[i] < before.len() && after[i] == before[from[i]]
    &&& forall|i: int, j: int| 0 <= i < j < after.len() ==> from[i] < from[j]
}

/// Whether `after` is `before` with some peers taken out.
pub open spec fn is_thinning(before: Seq<PeerView>, after: Seq<PeerView>) -> bool {
    exists|from: Seq<int>| thinned_by(before, after, from)
}

/// The queue after the view has changed: the peers that have left the view
/// leave the queue, and the peers of the view that the queue did not hold
/// join it at the end, in the order of the view.
pub open spec fn refreshed_queue(queue: Seq<PeerView>, peers: Seq<PeerView>) -> Seq<PeerView> {
    picked(queue, presence_marks(queue, peers), true) + picked(peers, presence_marks(peers, queue), false)
}

/// The view after a buffer has been merged into it, up to the point where
/// peers are taken out at random: the foreign peers of the buffer are
/// appended, duplicates merged, then of what exceeds `c` the oldest are taken
/// out, `h` at most, and then peers at the head, `s` at most.
pub open spec fn selection(
    peers: Seq<PeerView>,
    buffer: Seq<PeerView>,
    host_address: Seq<char>,
    c: nat,
    h: nat,
    s: nat,
) -> Seq<PeerView> {
    let merged = merge_duplicates(peers + foreign_peers(buffer, host_address));
    let healed = without_oldest(merged, least(h, excess(merged.len(), c)));
    healed.skip(least(s, excess(healed.len(), c)) as int)
}

/// What is picked from a list stood in it at a position with the wanted
/// mark, every peer at such a position is picked, and no address comes to
/// occur twice.
pub proof fn lemma_picked(peers: Seq<PeerView>, marks: Seq<bool>, want: bool)
    requires
        marks.len() == peers.len(),
    ensures
        picked(peers, marks, want).len() <= peers.len(),
        forall|k: int|
            0 <= k < picked(peers, marks, want).len() ==> marked_in(
                peers,
                marks,
                want,
                #[trigger] picked(peers, marks, want)[k],
            ),
        forall|j: int|
            0 <= j < peers.len() && marks[j] == want ==> picked(peers, marks, want).contains(#[trigger] peers[j]),
        distinct_addresses(peers) ==> distinct_addresses(picked(peers, marks, want)),
    decreases peers.len(),
{
    if peers.len() > 0 {
        let front = peers.drop_last();
        let front_marks = marks.drop_last();
        lemma_picked(front, front_marks, want);
        let prev = picked(front, front_marks, want);
        let all = picked(peers, marks, want);
        assert forall|k: int| 0 <= k < all.len() implies marked_in(peers, marks, want, #[trigger] all[k]) by {
            if k < prev.len() {
                assert(marked_in(front, front_marks, want, prev[k]));
                let j = choose|j: int| 0 <= j < front.len() && #[trigger] front[j] == prev[k] && front_marks[j] == want;
                assert(peers[j] == all[k] && marks[j] == want);
            } else {
                assert(peers[peers.len() - 1] == all[k]);
            }
        }
        assert forall|j: int| 0 <= j < peers.len() && marks[j] == want implies all.contains(
            #[trigger] peers[j],
        ) by {
            if j < front.len() {
                assert(front[j] == peers[j] && front_marks[j] == marks[j]);
                let x = choose|x: int| 0 <= x < prev.len() && prev[x] == front[j];
                assert(all[x] == peers[j]);
            } else {
                assert(all[all.len() - 1] == peers[j]);
            }
        }
        if distinct_addresses(peers) {
            assert(distinct_addresses(front)) by {
                assert forall|i: int, j: int| 0 <= i < j < front.len() implies front[i].address
                    != front[j].address by {
                    assert(front[i] == peers[i] && front[j] == peers[j]);
                }
            }
            assert forall|i: int, j: int| 0 <= i < j < all.len() implies all[i].address != all[j].address by {
                if j >= prev.len() {
                    assert(marked_in(front, front_marks, want, prev[i]));
                    let x = choose|x: int|
                        0 <= x < front.len() && #[trigger] front[x] == prev[i] && front_marks[x] == want;
                    assert(peers[x] == all[i]);
                    assert(peers[peers.len() - 1] == all[j]);
                }
            }
        }
    }
}

/// Picking from a list brings in no address that the list did not hold.
pub proof fn lemma_picked_addresses(peers: Seq<PeerView>, marks: Seq<bool>, want: bool, address: Seq<char>)
    requires
        marks.len() == peers.len(),
        has_address(picked(peers, marks, want), address),
    ensures
        has_address(peers, address),
        exists|j: int| 0 <= j < peers.len() && (#[trigger] peers[j]).address == address && marks[j] == want,
{
    lemma_picked(peers, marks, want);
    let all = picked(peers, marks, want);
    let k = choose|k: int| 0 <= k < all.len() && (#[trigger] all[k]).address == address;
    assert(marked_in(peers, marks, want, all[k]));
    let j = choose|j: int| 0 <= j < peers.len() && #[trigger] peers[j] == all[k] && marks[j] == want;
    assert(peers[j].address == address);
}

/// Merging duplicates leaves one peer for each address of the list: a peer of
/// the list, and none of that address in the list has a smaller age.
pub proof fn lemma_merge_duplicates(peers: Seq<PeerView>)
    ensures
        merge_duplicates(peers).len() <= peers.len(),
        distinct_addresses(merge_duplicates(peers)),
        forall|k: int|
            0 <= k < merge_duplicates(peers).len() ==> peers.contains(#[trigger] merge_duplicates(peers)[k]),
        forall|j: int| 0 <= j < peers.len() ==> has_address(merge_duplicates(peers), (#[trigger] peers[j]).address),
        forall|k: int, j: int|
            0 <= k < merge_duplicates(peers).len() && 0 <= j < peers.len() && (#[trigger] peers[j]).address == (
            #[trigger] merge_duplicates(peers)[k]).address ==> merge_duplicates(peers)[k].age <= peers[j].age,
    decreases peers.len(),
{
    if peers.len() > 0 {
        let front = peers.drop_last();
        let peer = peers.last();
        lemma_merge_duplicates(front);
        let merged = merge_duplicates(front);
        let all = merge_duplicates(peers);
        assert forall|j: int| 0 <= j < front.len() implies front[j] == peers[j] by {}
        if has_address(merged, peer.address) {
            let at = address_index(merged, peer.address);
            assert forall|k: int| 0 <= k < all.len() implies peers.contains(#[trigger] all[k]) by {
                if all[k] == peer {
                    assert(peers[peers.len() - 1] == peer);
                } else {
                    assert(all[k] == merged[k]);
                    assert(front.contains(merged[k]));
                    let x = choose|x: int| 0 <= x < front.len() && front[x] == merged[k];
                    assert(peers[x] == all[k]);
                }
            }
            assert forall|j: int| 0 <= j < peers.len() implies has_address(all, (#[trigger] peers[j]).address) by {
                if j < front.len() {
                    assert(has_address(merged, front[j].address));
                    let x = choose|x: int| 0 <= x < merged.len() && (#[trigger] merged[x]).address == front[j].address;
                    assert(all[x].address == peers[j].address);
                } else {
                    assert(all[at].address == peers[j].address);
                }
            }
            assert forall|k: int, j: int|
                0 <= k < all.len() && 0 <= j < peers.len() && (#[trigger] peers[j]).address == (
                #[trigger] all[k]).address implies all[k].age <= peers[j].age by {
                assert(all[k].address == merged[k].address);
                assert(all[k].age <= merged[k].age);
                if j < front.len() {
                    assert(front[j].address == merged[k].address);
                } else {
                    assert(k == at);
                }
            }
            assert(distinct_addresses(all)) by {
                assert forall|i: int, j: int| 0 <= i < j < all.len() implies all[i].address != all[j].address by {
                    assert(all[i].address == merged[i].address && all[j].address == merged[j].address);
                }
            }
        } else {
            assert forall|k: int| 0 <= k < all.len() implies peers.contains(#[trigger] all[k]) by {
                if k < merged.len() {
                    assert(front.contains(merged[k]));
                    let x = choose|x: int| 0 <= x < front.len() && front[x] == merged[k];
                    assert(peers[x] == all[k]);
                } else {
                    assert(peers[peers.len() - 1] == all[k]);
                }
            }
            assert forall|j: int| 0 <= j < peers.len() implies has_address(all, (#[trigger] peers[j]).address) by {
                if j < front.len() {
                    assert(has_address(merged, front[j].address));
                    let x = choose|x: int| 0 <= x < merged.len() && (#[trigger] merged[x]).address == front[j].address;
                    assert(all[x].address == peers[j].address);
                } else {
                    assert(all[all.len() - 1].address == peers[j].address);
                }
            }
            assert forall|k: int, j: int|
                0 <= k < all.len() && 0 <= j < peers.len() && (#[trigger] peers[j]).address == (
                #[trigger] all[k]).address implies all[k].age <= peers[j].age by {
                if k < merged.len() {
                    assert(all[k] == merged[k]);
                    if j < front.len() {
                        assert(front[j].address == merged[k].address);
                    } else {
                        assert(merged[k].address == peer.address);
                    }
                } else {
                    if j < front.len() {
                        assert(has_address(merged, front[j].address));
                    }
                }
            }
            assert(distinct_addresses(all)) by {
                assert forall|i: int, j: int| 0 <= i < j < all.len() implies all[i].address != all[j].address by {
                    if j == merged.len() {
                        assert(all[i] == merged[i]);
                    } else {
                        assert(all[i] == merged[i] && all[j] == merged[j]);
                    }
                }
            }
        }
    }
}

/// Taking peers out of a list brings in no address and makes none occur
/// twice; where nothing was taken out the list is as it was.
pub proof fn lemma_thinning(before: Seq<PeerView>, after: Seq<PeerView>)
    requires
        is_thinning(before, after),
    ensures
        after.len() <= before.len(),
        after.len() == before.len() ==> after == before,
        forall|k: int| 0 <= k < after.len() ==> before.contains(#[trigger] after[k]),
        distinct_addresses(before) ==> distinct_addresses(after),
{
    let from = choose|from: Seq<int>| thinned_by(before, after, from);
    lemma_increasing_bounds(from, before.len() as int, after.len() as int);
    assert forall|k: int| 0 <= k < after.len() implies before.contains(#[trigger] after[k]) by {
        assert(before[from[k]] == after[k]);
    }
    if distinct_addresses(before) {
        assert forall|i: int, j: int| 0 <= i < j < after.len() implies after[i].address != after[j].address by {
            assert(from[i] < from[j]);
        }
    }
    if after.len() == before.len() {
        assert forall|k: int| 0 <= k < after.len() implies after[k] == before[k] by {
            assert(from[k] >= k);
            assert(from[k] <= before.len() - (after.len() - k));
        }
        assert(after =~= before);
    }
}

/// A strictly increasing list of `n` positions below `limit` has its item
/// `k` between `k` and `limit - (n - k)`.
pub proof fn lemma_increasing_bounds(from: Seq<int>, limit: int, n: int)
    requires
        0 <= n <= from.len(),
        forall|i: int| 0 <= i < n ==> 0 <= #[trigger] from[i] < limit,
        forall|i: int, j: int| 0 <= i < j < n ==> from[i] < from[j],
    ensures
        n <= limit || n == 0,
        forall|k: int| 0 <= k < n ==> k <= #[trigger] from[k] <= limit - (n - k),
    decreases n,
{
    if n > 0 {
        lemma_increasing_bounds(from, from[n - 1], n - 1);
        assert forall|k: int| 0 <= k < n implies k <= #[trigger] from[k] <= limit - (n - k) by {
            if k < n - 1 {
                assert(from[k] <= from[n - 1] - (n - 1 - k));
            } else {
                if n - 1 > 0 {
                    assert(from[n - 2] >= n - 2);
                    assert(from[n - 2] < from[n - 1]);
                }
            }
        }
    }
}

/// Whether every address of `sub` is the address of a peer of `sup`.
pub open spec fn holds_addresses_of(sup: Seq<PeerView>, sub: Seq<PeerView>) -> bool {
    forall|k: int| 0 <= k < sub.len() ==> has_address(sup, (#[trigger] sub[k]).address)
}

/// A list that holds the peers of another holds its addresses, and whatever
/// addresses that one holds.
pub proof fn lemma_holds_addresses(sup: Seq<PeerView>, middle: Seq<PeerView>, sub: Seq<PeerView>)
    requires
        drawn_from(middle, sup) || holds_addresses_of(sup, middle),
        holds_addresses_of(middle, sub),
    ensures
        holds_addresses_of(sup, middle),
        holds_addresses_of(sup, sub),
{
    assert forall|k: int| 0 <= k < middle.len() implies has_address(sup, (#[trigger] middle[k]).address) by {
        if drawn_from(middle, sup) {
            assert(sup.contains(middle[k]));
            let j = choose|j: int| 0 <= j < sup.len() && sup[j] == middle[k];
            assert(sup[j].address == middle[k].address);
        }
    }
    assert forall|k: int| 0 <= k < sub.len() implies has_address(sup, (#[trigger] sub[k]).address) by {
        let j = choose|j: int| 0 <= j < middle.len() && (#[trigger] middle[j]).address == sub[k].address;
        assert(has_address(sup, middle[j].address));
    }
}

/// Whether every peer of `sub` is a peer of `sup`.
pub open spec fn drawn_from(sub: Seq<PeerView>, sup: Seq<PeerView>) -> bool {
    forall|k: int| 0 <= k < sub.len() ==> sup.contains(#[trigger] sub[k])
}

/// A list drawn from another holds no address that the other does not hold.
pub proof fn lemma_drawn_from(sub: Seq<PeerView>, sup: Seq<PeerView>, address: Seq<char>)
    requires
        drawn_from(sub, sup),
        has_address(sub, address),
    ensures
        has_address(sup, address),
{
    let k = choose|k: int| 0 <= k < sub.len() && (#[trigger] sub[k]).address == address;
    assert(sup.contains(sub[k]));
    let j = choose|j: int| 0 <= j < sup.len() && sup[j] == sub[k];
    assert(sup[j].address == address);
}

/// Where every mark is the wanted one, all peers are picked; where none is,
/// none.
pub proof fn lemma_picked_all(peers: Seq<PeerView>, marks: Seq<bool>, want: bool)
    requires
        marks.len() == peers.len(),
    ensures
        (forall|i: int| 0 <= i < marks.len() ==> marks[i] == want) ==> picked(peers, marks, want) == peers,
        (forall|i: int| 0 <= i < marks.len() ==> marks[i] != want) ==> picked(peers, marks, want).len() == 0,
    decreases peers.len(),
{
    if peers.len() > 0 {
        lemma_picked_all(peers.drop_last(), marks.drop_last(), want);
        if forall|i: int| 0 <= i < marks.len() ==> marks[i] == want {
            assert forall|i: int| 0 <= i < marks.drop_last().len() implies marks.drop_last()[i] == want by {
                assert(marks.drop_last()[i] == marks[i]);
            }
            assert(marks.last() == marks[marks.len() - 1]);
            assert(picked(peers, marks, want) =~= peers);
        }
        if forall|i: int| 0 <= i < marks.len() ==> marks[i] != want {
            assert forall|i: int| 0 <= i < marks.drop_last().len() implies marks.drop_last()[i] != want by {
                assert(marks.drop_last()[i] == marks[i]);
            }
            assert(marks.last() == marks[marks.len() - 1]);
        }
    } else {
        assert(picked(peers, marks, want) =~= peers);
    }
}

/// Taking none of the oldest peers out leaves the list as it is.
pub proof fn lemma_without_oldest_none(peers: Seq<PeerView>)
    ensures
        without_oldest(peers, 0) == peers,
{
    lemma_picked_all(peers, oldest_marks(peers, 0), false);
}

/// The peers picked for one mark and those picked for the other are together
/// as many as the list holds.
pub proof fn lemma_partition_len(peers: Seq<PeerView>, marks: Seq<bool>)
    requires
        marks.len() == peers.len(),
    ensures
        picked(peers, marks, false).len() + picked(peers, marks, true).len() == peers.len(),
    decreases peers.len(),
{
    if peers.len() > 0 {
        lemma_partition_len(peers.drop_last(), marks.drop_last());
    }
}

/// Every peer of a refreshed queue is a peer of the old queue or of the
/// view, and its address is in the view.
pub proof fn lemma_refreshed_queue(queue: Seq<PeerView>, peers: Seq<PeerView>)
    ensures
        forall|k: int|
            0 <= k < refreshed_queue(queue, peers).len() ==> has_address(
                peers,
                (#[trigger] refreshed_queue(queue, peers)[k]).address,
            ),
{
    let stay = presence_marks(queue, peers);
    let join = presence_marks(peers, queue);
    let kept = picked(queue, stay, true);
    let joined = picked(peers, join, false);
    let all = refreshed_queue(queue, peers);
    lemma_picked(queue, stay, true);
    lemma_picked(peers, join, false);
    assert forall|k: int| 0 <= k < all.len() implies has_address(peers, (#[trigger] all[k]).address) by {
        if k < kept.len() {
            assert(marked_in(queue, stay, true, kept[k]));
        } else {
            assert(marked_in(peers, join, false, joined[k - kept.len()]));
            let j = choose|j: int|
                0 <= j < peers.len() && #[trigger] peers[j] == joined[k - kept.len()] && join[j] == false;
            assert(peers[j].address == all[k].address);
        }
    }
}

/// A refreshed queue holds no address that neither the old queue nor the view
/// held.
pub proof fn lemma_refreshed_queue_addresses(queue: Seq<PeerView>, peers: Seq<PeerView>, address: Seq<char>)
    requires
        has_address(refreshed_queue(queue, peers), address),
    ensures
        has_address(queue, address) || has_address(peers, address),
{
    let stay = presence_marks(queue, peers);
    let join = presence_marks(peers, queue);
    let kept = picked(queue, stay, true);
    let joined = picked(peers, join, false);
    let all = refreshed_queue(queue, peers);
    let k = choose|k: int| 0 <= k < all.len() && (#[trigger] all[k]).address == address;
    if k < kept.len() {
        assert(kept[k].address == address);
        lemma_picked_addresses(queue, stay, true, address);
    } else {
        assert(joined[k - kept.len()].address == address);
        lemma_picked_addresses(peers, join, false, address);
    }
}

/// How many of the marks are set.
pub open spec fn count_marks(marks: Seq<bool>) -> nat
    decreases marks.len(),
{
    if marks.len() == 0 {
        0
    } else {
        count_marks(marks.drop_last()) + if marks.last() {
            1nat
        } else {
            0nat
        }
    }
}

/// As many peers are picked as there are marks of the wanted kind.
pub proof fn lemma_picked_len(peers: Seq<PeerView>, marks: Seq<bool>)
    requires
        marks.len() == peers.len(),
    ensures
        picked(peers, marks, true).len() == count_marks(marks),
        picked(peers, marks, false).len() == peers.len() - count_marks(marks),
    decreases peers.len(),
{
    if peers.len() > 0 {
        lemma_picked_len(peers.drop_last(), marks.drop_last());
    }
}

/// Setting one more mark makes one more.
pub proof fn lemma_count_marks_insert(marks: Seq<bool>, at: int)
    requires
        0 <= at <= marks.len(),
    ensures
        count_marks(marks.insert(at, true)) == count_marks(marks) + 1,
    decreases marks.len(),
{
    let more = marks.insert(at, true);
    if at == marks.len() {
        assert(more.drop_last() =~= marks);
    } else {
        assert(more.drop_last() =~= marks.drop_last().insert(at, true));
        assert(more.last() == marks.last());
        lemma_count_marks_insert(marks.drop_last(), at);
    }
}

/// The position of the oldest peer of a list: the one with the largest age,
/// and the last of them among equals.
pub open spec fn eldest(peers: Seq<PeerView>) -> int
    decreases peers.len(),
{
    if peers.len() <= 1 {
        0
    } else {
        let before = eldest(peers.drop_last());
        if peers.last().age >= peers[before].age {
            peers.len() - 1
        } else {
            before
        }
    }
}

/// The oldest peer counts as older than every other, and none as older than
/// it.
pub proof fn lemma_eldest(peers: Seq<PeerView>)
    requires
        peers.len() > 0,
    ensures
        0 <= eldest(peers) < peers.len(),
        forall|j: int| 0 <= j < peers.len() && j != eldest(peers) ==> older_than(peers, eldest(peers), j),
        forall|j: int| 0 <= j < peers.len() ==> !older_than(peers, j, eldest(peers)),
    decreases peers.len(),
{
    if peers.len() > 1 {
        let front = peers.drop_last();
        lemma_eldest(front);
        let before = eldest(front);
        assert(front[before] == peers[before]);
        assert forall|j: int| 0 <= j < peers.len() && j != eldest(peers) implies older_than(
            peers,
            eldest(peers),
            j,
        ) by {
            if j < front.len() {
                assert(front[j] == peers[j]);
                if j != before {
                    assert(older_than(front, before, j));
                }
            }
        }
        assert forall|j: int| 0 <= j < peers.len() implies !older_than(peers, j, eldest(peers)) by {
            if j < front.len() {
                assert(front[j] == peers[j]);
                assert(!older_than(front, j, before));
            }
        }
    }
}

/// No peer is counted where none counts as older.
pub proof fn lemma_count_older_none(peers: Seq<PeerView>, i: int, n: int)
    requires
        0 <= n <= peers.len(),
        forall|j: int| 0 <= j < n ==> !older_than(peers, j, i),
    ensures
        count_older(peers, i, n) == 0,
    decreases n,
{
    if n > 0 {
        lemma_count_older_none(peers, i, n - 1);
    }
}

/// Once the oldest peer has been taken out of a list, every other peer has
/// one peer less that counts as older. Here `i` is a position in the list
/// without the oldest peer, and `m` says how many of its peers are looked at.
pub proof fn lemma_count_older_without_eldest(peers: Seq<PeerView>, i: int, m: int)
    requires
        peers.len() > 0,
        0 <= i < peers.len() - 1,
        0 <= m <= peers.len() - 1,
    ensures
        ({
            let o = eldest(peers);
            let rest = peers.remove(o);
            let up = if i < o {
                i
            } else {
                i + 1
            };
            if m <= o {
                count_older(rest, i, m) == count_older(peers, up, m)
            } else {
                count_older(rest, i, m) + 1 == count_older(peers, up, m + 1)
            }
        }),
    decreases m,
{
    let o = eldest(peers);
    lemma_eldest(peers);
    let rest = peers.remove(o);
    let up = if i < o {
        i
    } else {
        i + 1
    };
    assert(rest[i] == peers[up]);
    if m > 0 {
        lemma_count_older_without_eldest(peers, i, m - 1);
        if m - 1 < o {
            assert(rest[m - 1] == peers[m - 1]);
            assert(older_than(rest, m - 1, i) == older_than(peers, m - 1, up));
        } else {
            assert(rest[m - 1] == peers[m]);
            assert(older_than(rest, m - 1, i) == older_than(peers, m, up));
            assert(count_older(peers, up, m + 1) == count_older(peers, up, m) + if older_than(peers, m, up) {
                1nat
            } else {
                0nat
            });
            if m - 1 == o {
                assert(older_than(peers, o, up));
                assert(count_older(peers, up, m) == count_older(peers, up, m - 1) + 1);
            }
        }
    }
}

/// Of a list, as many peers are among the `k` oldest as `k` says, or all
/// where the list holds fewer.
pub proof fn lemma_count_oldest(peers: Seq<PeerView>, k: nat)
    ensures
        count_marks(oldest_marks(peers, k)) == least(k, peers.len()),
    decreases peers.len(),
{
    let marks = oldest_marks(peers, k);
    let n = peers.len() as int;
    if n == 0 {
    } else if k == 0 {
        lemma_picked_all(peers, marks, false);
        lemma_picked_len(peers, marks);
    } else {
        let o = eldest(peers);
        lemma_eldest(peers);
        let rest = peers.remove(o);
        let fewer = oldest_marks(rest, (k - 1) as nat);
        lemma_count_oldest(rest, (k - 1) as nat);
        lemma_count_older_none(peers, o, n);
        assert forall|x: int| 0 <= x < n implies marks[x] == fewer.insert(o, true)[x] by {
            if x != o {
                let i = if x < o {
                    x
                } else {
                    x - 1
                };
                lemma_count_older_without_eldest(peers, i, n - 1);
                if n - 1 <= o {
                    assert(older_than(peers, o, x));
                    assert(count_older(peers, x, n) == count_older(peers, x, n - 1) + 1);
                }
                assert(fewer[i] == (count_older(rest, i, n - 1) < k - 1));
            }
        }
        assert(marks =~= fewer.insert(o, true));
        lemma_count_marks_insert(fewer, o);
    }
}

/// Taking the `k` oldest peers out of a list shortens it by `k`, or empties
/// it where it holds fewer; and every peer that is taken out counts as older
/// than every peer that stays.
pub proof fn lemma_without_oldest(peers: Seq<PeerView>, k: nat)
    ensures
        without_oldest(peers, k).len() == peers.len() - least(k, peers.len()),
        picked(peers, oldest_marks(peers, k), true).len() == least(k, peers.len()),
        forall|i: int, j: int|
            0 <= i < peers.len() && 0 <= j < peers.len() && #[trigger] oldest_marks(peers, k)[i]
                && !#[trigger] oldest_marks(peers, k)[j] ==> older_than(peers, i, j),
{
    lemma_count_oldest(peers, k);
    lemma_picked_len(peers, oldest_marks(peers, k));
    let n = peers.len() as int;
    assert forall|i: int, j: int|
        0 <= i < n && 0 <= j < n && #[trigger] oldest_marks(peers, k)[i] && !#[trigger] oldest_marks(
            peers,
            k,
        )[j] implies older_than(peers, i, j) by {
        if !older_than(peers, i, j) {
            assert(older_than(peers, j, i));
            lemma_count_older_grows(peers, j, i, n);
        }
    }
}

/// Where the peer at `a` counts as older than the one at `b`, fewer peers
/// count as older than it.
pub proof fn lemma_count_older_grows(peers: Seq<PeerView>, a: int, b: int, n: int)
    requires
        0 <= a < peers.len(),
        0 <= b < peers.len(),
        0 <= n <= peers.len(),
        older_than(peers, a, b),
    ensures
        count_older(peers, a, n) <= count_older(peers, b, n),
        n > a ==> count_older(peers, a, n) < count_older(peers, b, n),
    decreases n,
{
    if n > 0 {
        lemma_count_older_grows(peers, a, b, n - 1);
        if older_than(peers, n - 1, a) {
            assert(older_than(peers, n - 1, b));
        }
    }
}

/// A list in another order holds the same peers, and as many.
pub proof fn lemma_rearrangement(before: Seq<PeerView>, after: Seq<PeerView>)
    requires
        is_rearrangement(before, after),
    ensures
        after.len() == before.len(),
        drawn_from(after, before),
        drawn_from(before, after),
        distinct_addresses(before) ==> distinct_addresses(after),
{
    let (from, to) = choose|from: Seq<int>, to: Seq<int>| rearranged_by(before, after, from, to);
    assert forall|k: int| 0 <= k < after.len() implies before.contains(#[trigger] after[k]) by {
        assert(before[from[k]] == after[k]);
    }
    assert forall|k: int| 0 <= k < before.len() implies after.contains(#[trigger] before[k]) by {
        assert(after[to[k]] == before[from[to[k]]]);
    }
    if distinct_addresses(before) {
        assert forall|i: int, j: int| 0 <= i < j < after.len() implies after[i].address != after[j].address by {
            assert(to[from[i]] == i && to[from[j]] == j);
            let x = from[i];
            let y = from[j];
            assert(x != y);
            if x < y {
                assert(before[x].address != before[y].address);
            } else {
                assert(before[y].address != before[x].address);
            }
        }
    }
}

/// Advancing the ages changes no address.
pub proof fn lemma_aged(peers: Seq<PeerView>)
    ensures
        aged(peers).len() == peers.len(),
        forall|address: Seq<char>| has_address(aged(peers), address) <==> has_address(peers, address),
        distinct_addresses(peers) ==> distinct_addresses(aged(peers)),
{
    assert forall|address: Seq<char>| has_address(aged(peers), address) <==> has_address(peers, address) by {
        if has_address(aged(peers), address) {
            let k = choose|k: int| 0 <= k < aged(peers).len() && (#[trigger] aged(peers)[k]).address == address;
            assert(peers[k].address == address);
        }
        if has_address(peers, address) {
            let k = choose|k: int| 0 <= k < peers.len() && (#[trigger] peers[k]).address == address;
            assert(aged(peers)[k].address == address);
        }
    }
    if distinct_addresses(peers) {
        assert forall|i: int, j: int| 0 <= i < j < aged(peers).len() implies aged(peers)[i].address != aged(
            peers,
        )[j].address by {
            assert(peers[i].address != peers[j].address);
        }
    }
}

} // verus!
