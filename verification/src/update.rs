//! Updates, and the store that holds the active ones and remembers the
//! expired ones.

use vstd::prelude::*;
use crate::config::{initial_expiration, UpdateExpirationMode, UpdateExpirationValue};
use crate::digest::{compute_digest, digest_of, is_digest_text};

verus! {

/// How many digests of expired updates are kept once the list has been cut.
pub const MAX_EXPIRED_SIZE: usize = 10000;

/// How many more digests of expired updates may pile up before the list is
/// cut, and how many of the oldest are then dropped.
pub const MAX_EXPIRED_MARGIN: usize = 5000;

/// What an [`Update`] stands for in contracts.
#[verifier::ext_equal]
pub ghost struct UpdateView {
    pub content: Seq<u8>,
    pub digest: Seq<char>,
}

/// A piece of binary content together with its digest.
#[derive(Debug)]
pub struct Update {
    content: Vec<u8>,
    digest: String,
}

impl View for Update {
    type V = UpdateView;

    closed spec fn view(&self) -> UpdateView {
        UpdateView { content: self.content@, digest: self.digest@ }
    }
}

impl Update {
    #[verifier::type_invariant]
    spec fn digest_matches(self) -> bool {
        self.digest@ == digest_of(self.content@) && is_digest_text(self.digest@)
    }

    /// Wraps `content` and computes its digest, which has 64 lower-case
    /// hexadecimal digits.
    pub fn new(content: Vec<u8>) -> (update: Update)
        ensures
            update@ == (UpdateView { content: content@, digest: digest_of(content@) }),
            is_digest_text(update@.digest),
    {
        let digest = compute_digest(&content);
        Update { content, digest }
    }

    /// The content.
    pub fn content(&self) -> (content: &Vec<u8>)
        ensures
            content@ == self@.content,
    {
        &self.content
    }

    /// The digest, which is that of the content: 64 lower-case hexadecimal
    /// digits.
    pub fn digest(&self) -> (digest: &String)
        ensures
            digest@ == self@.digest,
            digest@ == digest_of(self@.content),
            is_digest_text(digest@),
    {
        proof {
            use_type_invariant(self);
        }
        &self.digest
    }
}

impl Clone for Update {
    fn clone(&self) -> (update: Update)
        ensures
            update@ == self@,
            is_digest_text(update@.digest),
    {
        proof {
            use_type_invariant(self);
        }
        Update { content: self.content.clone(), digest: self.digest.clone() }
    }
}

/// Receives the updates that the node has acquired from other nodes.
pub trait UpdateHandler {
    /// Called once for each update that arrives over the network.
    fn on_update(&self, update: Update);
}

/// Why an update was not admitted.
#[derive(Clone, Copy, Debug, PartialEq, Eq, Structural)]
pub enum SubmitError {
    /// The update is among the active ones.
    AlreadyActive,
    /// The update was active once and has expired.
    AlreadyExpired,
}

/// An active update with what decides its expiration.
#[verifier::ext_equal]
pub ghost struct ActiveUpdate {
    pub update: UpdateView,
    pub expiration: UpdateExpirationValue,
}

/// What an [`UpdateDecorator`] stands for in contracts: the active updates in
/// the order in which they were admitted, the digests of the expired ones,
/// oldest first, and the expiration policy.
#[verifier::ext_equal]
pub ghost struct StoreState {
    pub active: Seq<ActiveUpdate>,
    pub removed: Seq<Seq<char>>,
    pub mode: UpdateExpirationMode,
}

/// The digests of `active`, in order.
pub open spec fn digests_of(active: Seq<ActiveUpdate>) -> Seq<Seq<char>> {
    Seq::new(active.len(), |i: int| active[i].update.digest)
}

/// The entries of `active` with one more advertisement counted on each.
pub open spec fn pushed_entries(active: Seq<ActiveUpdate>) -> Seq<ActiveUpdate> {
    Seq::new(
        active.len(),
        |i: int| ActiveUpdate { update: active[i].update, expiration: active[i].expiration.pushed() },
    )
}

/// The entries that have not expired at `now`, in order.
pub open spec fn live_entries(active: Seq<ActiveUpdate>, now: u128) -> Seq<ActiveUpdate>
    decreases active.len(),
{
    if active.len() == 0 {
        Seq::empty()
    } else if active.last().expiration.expired_at(now) {
        live_entries(active.drop_last(), now)
    } else {
        live_entries(active.drop_last(), now).push(active.last())
    }
}

/// The digests of the entries that have expired at `now`, in order.
pub open spec fn expired_digests(active: Seq<ActiveUpdate>, now: u128) -> Seq<Seq<char>>
    decreases active.len(),
{
    if active.len() == 0 {
        Seq::empty()
    } else if active.last().expiration.expired_at(now) {
        expired_digests(active.drop_last(), now).push(active.last().update.digest)
    } else {
        expired_digests(active.drop_last(), now)
    }
}

/// The position of the entry that was created first; among entries created at
/// the same time, the one admitted first.
pub open spec fn oldest_index(active: Seq<ActiveUpdate>) -> int
    decreases active.len(),
{
    if active.len() <= 1 {
        0
    } else {
        let before = oldest_index(active.drop_last());
        if active.last().expiration.created_at() < active[before].expiration.created_at() {
            active.len() - 1
        } else {
            before
        }
    }
}

/// Moves the `count` oldest entries, oldest first, from `active` to the end
/// of `removed`.
pub open spec fn evict_oldest(active: Seq<ActiveUpdate>, removed: Seq<Seq<char>>, count: nat) -> (
    Seq<ActiveUpdate>,
    Seq<Seq<char>>,
)
    decreases count,
{
    if count == 0 || active.len() == 0 {
        (active, removed)
    } else {
        let oldest = oldest_index(active);
        evict_oldest(active.remove(oldest), removed.push(active[oldest].update.digest), (count - 1) as nat)
    }
}

/// The list of expired digests after the cut: once it is longer than size and
/// margin together, the margin's worth of the oldest digests is dropped.
pub open spec fn trimmed(removed: Seq<Seq<char>>) -> Seq<Seq<char>> {
    if removed.len() > MAX_EXPIRED_SIZE + MAX_EXPIRED_MARGIN {
        removed.skip(MAX_EXPIRED_MARGIN as int)
    } else {
        removed
    }
}

impl StoreState {
    /// Whether `digest` is among the active updates.
    pub open spec fn is_active(self, digest: Seq<char>) -> bool {
        digests_of(self.active).contains(digest)
    }

    /// Whether `digest` is among the expired ones that are still remembered.
    pub open spec fn is_expired(self, digest: Seq<char>) -> bool {
        self.removed.contains(digest)
    }

    /// Whether `digest` is active or remembered as expired.
    pub open spec fn knows(self, digest: Seq<char>) -> bool {
        self.is_active(digest) || self.is_expired(digest)
    }

    /// Whether `digest` is neither active nor remembered as expired.
    pub open spec fn is_new(self, digest: Seq<char>) -> bool {
        !self.knows(digest)
    }

    /// The invariant of the store: no digest is active twice, no active
    /// digest is among the expired ones, every active update carries the
    /// digest of its content, and every expiration value is of the kind that
    /// the policy creates.
    pub open spec fn wf(self) -> bool {
        &&& forall|i: int, j: int|
            0 <= i < j < self.active.len() ==> self.active[i].update.digest != self.active[j].update.digest
        &&& forall|i: int|
            0 <= i < self.active.len() ==> !self.removed.contains(#[trigger] self.active[i].update.digest)
        &&& forall|i: int|
            0 <= i < self.active.len() ==> (#[trigger] self.active[i]).update.digest == digest_of(
                self.active[i].update.content,
            )
        &&& forall|i: int| 0 <= i < self.active.len() ==> (#[trigger] self.active[i]).expiration.fits(self.mode)
    }

    /// The position of the first active update with the given digest.
    pub open spec fn position_of(self, digest: Seq<char>) -> int {
        choose|i: int|
            0 <= i < self.active.len() && (#[trigger] self.active[i]).update.digest == digest && forall|j: int|
                0 <= j < i ==> (#[trigger] self.active[j]).update.digest != digest
    }

    /// The content of the active update with the given digest.
    pub open spec fn content_of(self, digest: Seq<char>) -> Seq<u8> {
        self.active[self.position_of(digest)].update.content
    }

    /// What admitting an update with `digest` answers.
    pub open spec fn admission(self, digest: Seq<char>) -> Result<(), SubmitError> {
        if self.is_active(digest) {
            Err(SubmitError::AlreadyActive)
        } else if self.is_expired(digest) {
            Err(SubmitError::AlreadyExpired)
        } else {
            Ok(())
        }
    }

    /// The store with `update` admitted at time `now`.
    pub open spec fn inserted(self, update: UpdateView, now: u128) -> StoreState {
        StoreState {
            active: self.active.push(
                ActiveUpdate { update, expiration: initial_expiration(self.mode, now) },
            ),
            ..self
        }
    }

    /// The store after all active updates have been advertised once more.
    pub open spec fn pushed(self) -> StoreState {
        StoreState { active: pushed_entries(self.active), ..self }
    }

    /// The store after the expiration sweep at time `now`, before the list of
    /// expired digests is cut.
    pub open spec fn expired_moved(self, now: u128) -> StoreState {
        match self.mode {
            UpdateExpirationMode::Never => self,
            UpdateExpirationMode::MostRecent(size, slack) => {
                if self.active.len() > size + slack {
                    let (active, removed) = evict_oldest(
                        self.active,
                        self.removed,
                        (self.active.len() - size) as nat,
                    );
                    StoreState { active, removed, ..self }
                } else {
                    self
                }
            },
            _ => StoreState {
                active: live_entries(self.active, now),
                removed: self.removed + expired_digests(self.active, now),
                ..self
            },
        }
    }

    /// The store after the expiration sweep at time `now`.
    pub open spec fn swept(self, now: u128) -> StoreState {
        let moved = self.expired_moved(now);
        StoreState { removed: trimmed(moved.removed), ..moved }
    }

    /// The store with nothing in it.
    pub open spec fn cleared(self) -> StoreState {
        StoreState { active: Seq::empty(), removed: Seq::empty(), ..self }
    }
}

/// Whether no digest occurs twice in `active`.
pub open spec fn distinct_digests(active: Seq<ActiveUpdate>) -> bool {
    forall|i: int, j: int| 0 <= i < j < active.len() ==> active[i].update.digest != active[j].update.digest
}

/// The entries that a sweep keeps are entries of the store that have not
/// expired, and they stay distinct.
pub proof fn lemma_live_entries(active: Seq<ActiveUpdate>, now: u128)
    ensures
        live_entries(active, now).len() <= active.len(),
        forall|k: int|
            0 <= k < live_entries(active, now).len() ==> active.contains(
                #[trigger] live_entries(active, now)[k],
            ) && !live_entries(active, now)[k].expiration.expired_at(now),
        distinct_digests(active) ==> distinct_digests(live_entries(active, now)),
    decreases active.len(),
{
    if active.len() > 0 {
        let front = active.drop_last();
        let last = active.last();
        lemma_live_entries(front, now);
        let prev = live_entries(front, now);
        let live = live_entries(active, now);
        assert forall|k: int| 0 <= k < live.len() implies active.contains(#[trigger] live[k])
            && !live[k].expiration.expired_at(now) by {
            if k < prev.len() {
                assert(front.contains(prev[k]));
                let j = choose|j: int| 0 <= j < front.len() && front[j] == prev[k];
                assert(active[j] == live[k]);
            } else {
                assert(active[active.len() - 1] == live[k]);
            }
        }
        if distinct_digests(active) {
            assert(distinct_digests(front)) by {
                assert forall|i: int, j: int| 0 <= i < j < front.len() implies front[i].update.digest
                    != front[j].update.digest by {
                    assert(front[i] == active[i] && front[j] == active[j]);
                }
            }
            assert forall|i: int, j: int| 0 <= i < j < live.len() implies live[i].update.digest
                != live[j].update.digest by {
                if j < prev.len() {
                } else {
                    assert(front.contains(prev[i]));
                    let x = choose|x: int| 0 <= x < front.len() && front[x] == prev[i];
                    assert(active[x] == live[i]);
                    assert(active[active.len() - 1] == live[j]);
                }
            }
        }
    }
}

/// Whether `active` holds an entry with digest `d` that has expired at `now`.
pub open spec fn expired_in(active: Seq<ActiveUpdate>, now: u128, d: Seq<char>) -> bool {
    exists|j: int|
        0 <= j < active.len() && (#[trigger] active[j]).update.digest == d && active[j].expiration.expired_at(
            now,
        )
}

/// Every digest that a sweep moves is that of an entry that has expired.
pub proof fn lemma_expired_digests(active: Seq<ActiveUpdate>, now: u128)
    ensures
        expired_digests(active, now).len() <= active.len(),
        forall|k: int|
            0 <= k < expired_digests(active, now).len() ==> expired_in(
                active,
                now,
                #[trigger] expired_digests(active, now)[k],
            ),
    decreases active.len(),
{
    if active.len() > 0 {
        let front = active.drop_last();
        lemma_expired_digests(front, now);
        let prev = expired_digests(front, now);
        let moved = expired_digests(active, now);
        assert forall|k: int| 0 <= k < moved.len() implies expired_in(active, now, #[trigger] moved[k]) by {
            if k < prev.len() {
                assert(expired_in(front, now, prev[k]));
                let j = choose|j: int|
                    0 <= j < front.len() && (#[trigger] front[j]).update.digest == prev[k]
                        && front[j].expiration.expired_at(now);
                assert(active[j] == front[j]);
            } else {
                assert(active[active.len() - 1].update.digest == moved[k]);
            }
        }
    }
}

/// The oldest entry is no younger than any other, and older than all that
/// stand before it.
pub proof fn lemma_oldest_index(active: Seq<ActiveUpdate>)
    requires
        active.len() > 0,
    ensures
        0 <= oldest_index(active) < active.len(),
        forall|j: int|
            0 <= j < active.len() ==> active[oldest_index(active)].expiration.created_at() <= (
            #[trigger] active[j]).expiration.created_at(),
        forall|j: int|
            0 <= j < oldest_index(active) ==> active[oldest_index(active)].expiration.created_at() < (
            #[trigger] active[j]).expiration.created_at(),
    decreases active.len(),
{
    if active.len() > 1 {
        let front = active.drop_last();
        lemma_oldest_index(front);
        let before = oldest_index(front);
        assert(front[before] == active[before]);
        assert forall|j: int| 0 <= j < active.len() implies active[oldest_index(
            active,
        )].expiration.created_at() <= (#[trigger] active[j]).expiration.created_at() by {
            if j < front.len() {
                assert(front[j] == active[j]);
            }
        }
        assert forall|j: int| 0 <= j < oldest_index(active) implies active[oldest_index(
            active,
        )].expiration.created_at() < (#[trigger] active[j]).expiration.created_at() by {
            assert(front[j] == active[j]);
        }
    }
}

/// Evicting the oldest entries keeps the invariant of the store, shortens the
/// active list by the number asked for, and forgets no digest.
pub proof fn lemma_evict_oldest(store: StoreState, count: nat)
    requires
        store.wf(),
    ensures
        ({
            let (active, removed) = evict_oldest(store.active, store.removed, count);
            let after = StoreState { active, removed, ..store };
            &&& after.wf()
            &&& active.len() == if count <= store.active.len() {
                store.active.len() - count
            } else {
                0
            }
            &&& removed.len() == store.removed.len() + store.active.len() - active.len()
            &&& forall|d: Seq<char>|
                (store.is_active(d) || store.is_expired(d)) <==> (after.is_active(d) || after.is_expired(d))
            &&& forall|d: Seq<char>| store.is_expired(d) ==> after.is_expired(d)
            &&& forall|d: Seq<char>| after.is_active(d) ==> store.is_active(d)
        }),
    decreases count,
{
    if count == 0 || store.active.len() == 0 {
    } else {
        let oldest = oldest_index(store.active);
        lemma_oldest_index(store.active);
        let gone = store.active[oldest].update.digest;
        let next = StoreState {
            active: store.active.remove(oldest),
            removed: store.removed.push(gone),
            ..store
        };
        assert(next.wf()) by {
            assert forall|i: int| 0 <= i < next.active.len() implies !next.removed.contains(
                #[trigger] next.active[i].update.digest,
            ) by {
                let k = if i < oldest {
                    i
                } else {
                    i + 1
                };
                assert(next.active[i] == store.active[k]);
                assert(!store.removed.contains(store.active[k].update.digest));
                if next.removed.contains(next.active[i].update.digest) {
                    let x = choose|x: int|
                        0 <= x < next.removed.len() && next.removed[x] == next.active[i].update.digest;
                    if x < store.removed.len() {
                        assert(store.removed[x] == next.removed[x]);
                    }
                }
            }
        }
        assert forall|d: Seq<char>| (store.is_active(d) || store.is_expired(d)) <==> (next.is_active(d)
            || next.is_expired(d)) by {
            lemma_known_after_move(store, oldest, d);
        }
        assert forall|d: Seq<char>| store.is_expired(d) implies next.is_expired(d) by {
            lemma_known_after_move(store, oldest, d);
        }
        assert forall|d: Seq<char>| next.is_active(d) implies store.is_active(d) by {
            lemma_known_after_move(store, oldest, d);
        }
        lemma_evict_oldest(next, (count - 1) as nat);
    }
}

/// Moving one entry from the active list to the expired digests changes of no
/// digest whether the store knows it.
pub proof fn lemma_known_after_move(store: StoreState, position: int, d: Seq<char>)
    requires
        0 <= position < store.active.len(),
    ensures
        ({
            let next = StoreState {
                active: store.active.remove(position),
                removed: store.removed.push(store.active[position].update.digest),
                ..store
            };
            &&& (store.is_active(d) || store.is_expired(d)) <==> (next.is_active(d) || next.is_expired(d))
            &&& store.is_expired(d) ==> next.is_expired(d)
            &&& next.is_active(d) ==> store.is_active(d)
        }),
{
    let gone = store.active[position].update.digest;
    let next = StoreState {
        active: store.active.remove(position),
        removed: store.removed.push(gone),
        ..store
    };
    let before = digests_of(store.active);
    let after = digests_of(next.active);
    assert(next.removed[store.removed.len() as int] == gone);
    if store.is_expired(d) {
        let x = choose|x: int| 0 <= x < store.removed.len() && store.removed[x] == d;
        assert(next.removed[x] == d);
    }
    if store.is_active(d) {
        let x = choose|x: int| 0 <= x < before.len() && before[x] == d;
        if x < position {
            assert(after[x] == d);
        } else if x > position {
            assert(after[x - 1] == d);
        }
    }
    if next.is_active(d) {
        let x = choose|x: int| 0 <= x < after.len() && after[x] == d;
        if x < position {
            assert(before[x] == d);
        } else {
            assert(before[x + 1] == d);
        }
    }
    if next.is_expired(d) {
        let x = choose|x: int| 0 <= x < next.removed.len() && next.removed[x] == d;
        if x < store.removed.len() {
            assert(store.removed[x] == d);
        } else {
            assert(before[position] == d);
        }
    }
}

/// A sweep leaves every entry either among the live ones or, by its digest,
/// among the moved ones.
pub proof fn lemma_sweep_partition(active: Seq<ActiveUpdate>, now: u128)
    ensures
        forall|j: int|
            0 <= j < active.len() ==> if (#[trigger] active[j]).expiration.expired_at(now) {
                expired_digests(active, now).contains(active[j].update.digest)
            } else {
                live_entries(active, now).contains(active[j])
            },
    decreases active.len(),
{
    if active.len() > 0 {
        let front = active.drop_last();
        lemma_sweep_partition(front, now);
        let live = live_entries(active, now);
        let moved = expired_digests(active, now);
        assert forall|j: int| 0 <= j < active.len() implies if (#[trigger] active[j]).expiration.expired_at(
            now,
        ) {
            moved.contains(active[j].update.digest)
        } else {
            live.contains(active[j])
        } by {
            if j < front.len() {
                assert(front[j] == active[j]);
                if active[j].expiration.expired_at(now) {
                    let prev = expired_digests(front, now);
                    let x = choose|x: int| 0 <= x < prev.len() && prev[x] == active[j].update.digest;
                    assert(moved[x] == active[j].update.digest);
                } else {
                    let prev = live_entries(front, now);
                    let x = choose|x: int| 0 <= x < prev.len() && prev[x] == active[j];
                    assert(live[x] == active[j]);
                }
            } else {
                if active[j].expiration.expired_at(now) {
                    assert(moved[moved.len() - 1] == active[j].update.digest);
                } else {
                    assert(live[live.len() - 1] == active[j]);
                }
            }
        }
    }
}

/// The expiration sweep keeps the invariant of the store: in particular no
/// digest is active and expired at once.
pub proof fn lemma_swept_wf(store: StoreState, now: u128)
    requires
        store.wf(),
    ensures
        store.expired_moved(now).wf(),
        store.swept(now).wf(),
{
    let moved = store.expired_moved(now);
    match store.mode {
        UpdateExpirationMode::Never => {},
        UpdateExpirationMode::MostRecent(size, slack) => {
            if store.active.len() > size + slack {
                lemma_evict_oldest(store, (store.active.len() - size) as nat);
            }
        },
        _ => {
            lemma_live_entries(store.active, now);
            lemma_expired_digests(store.active, now);
            let live = live_entries(store.active, now);
            let gone = expired_digests(store.active, now);
            assert forall|i: int| 0 <= i < live.len() implies !moved.removed.contains(
                #[trigger] live[i].update.digest,
            ) && (#[trigger] live[i]).update.digest == digest_of(live[i].update.content)
                && live[i].expiration.fits(store.mode) by {
                assert(store.active.contains(live[i]));
                let x = choose|x: int| 0 <= x < store.active.len() && store.active[x] == live[i];
                assert(!store.removed.contains(store.active[x].update.digest));
                if moved.removed.contains(live[i].update.digest) {
                    let y = choose|y: int|
                        0 <= y < moved.removed.len() && moved.removed[y] == live[i].update.digest;
                    if y < store.removed.len() {
                        assert(store.removed[y] == moved.removed[y]);
                    } else {
                        assert(gone[y - store.removed.len()] == moved.removed[y]);
                        assert(expired_in(store.active, now, gone[y - store.removed.len()]));
                        let j = choose|j: int|
                            0 <= j < store.active.len() && (#[trigger] store.active[j]).update.digest
                                == live[i].update.digest && store.active[j].expiration.expired_at(now);
                        assert(j != x);
                    }
                }
            }
        },
    }
    let after = store.swept(now);
    assert forall|i: int| 0 <= i < after.active.len() implies !after.removed.contains(
        #[trigger] after.active[i].update.digest,
    ) by {
        if after.removed.contains(after.active[i].update.digest) {
            let y = choose|y: int| 0 <= y < after.removed.len() && after.removed[y] == after.active[i].update.digest;
            if moved.removed.len() > MAX_EXPIRED_SIZE + MAX_EXPIRED_MARGIN {
                assert(moved.removed[y + MAX_EXPIRED_MARGIN] == after.removed[y]);
            }
        }
    }
}

/// Admitting an update that the store does not know keeps the invariant of
/// the store.
pub proof fn lemma_inserted_wf(store: StoreState, update: UpdateView, now: u128)
    requires
        store.wf(),
        store.is_new(update.digest),
        update.digest == digest_of(update.content),
    ensures
        store.inserted(update, now).wf(),
{
    let after = store.inserted(update, now);
    assert forall|i: int, j: int| 0 <= i < j < after.active.len() implies after.active[i].update.digest
        != after.active[j].update.digest by {
        if j == store.active.len() {
            assert(digests_of(store.active)[i] == store.active[i].update.digest);
        }
    }
}

/// Counting an advertisement on every active update keeps the invariant of
/// the store and changes no digest.
pub proof fn lemma_pushed_wf(store: StoreState)
    requires
        store.wf(),
    ensures
        store.pushed().wf(),
        digests_of(store.pushed().active) == digests_of(store.active),
{
    let after = store.pushed();
    assert forall|i: int| 0 <= i < after.active.len() implies !after.removed.contains(
        #[trigger] after.active[i].update.digest,
    ) by {
        assert(after.active[i].update.digest == store.active[i].update.digest);
    }
    assert forall|i: int| 0 <= i < after.active.len() implies (#[trigger] after.active[i]).update.digest
        == digest_of(after.active[i].update.content) && after.active[i].expiration.fits(after.mode) by {
        assert(after.active[i].update == store.active[i].update);
        assert(store.active[i].expiration.fits(store.mode));
    }
    assert(digests_of(after.active) =~= digests_of(store.active));
}

/// A digest that the store knows is still known after expired entries have
/// been moved, and after the sweep unless it was among the digests that the
/// cut dropped.
pub proof fn lemma_sweep_keeps_known(store: StoreState, now: u128, d: Seq<char>)
    requires
        store.knows(d),
    ensures
        store.expired_moved(now).knows(d),
        store.swept(now).knows(d) || (store.expired_moved(now).removed.len() > MAX_EXPIRED_SIZE
            + MAX_EXPIRED_MARGIN && store.expired_moved(now).removed.take(MAX_EXPIRED_MARGIN as int).contains(
            d,
        )),
{
    let moved = store.expired_moved(now);
    match store.mode {
        UpdateExpirationMode::Never => {},
        UpdateExpirationMode::MostRecent(size, slack) => {
            if store.active.len() > size + slack {
                lemma_evict_oldest_known(store, (store.active.len() - size) as nat, d);
            }
        },
        _ => {
            if store.is_expired(d) {
                let x = choose|x: int| 0 <= x < store.removed.len() && store.removed[x] == d;
                assert(moved.removed[x] == d);
            } else {
                lemma_sweep_partition(store.active, now);
                let x = choose|x: int| 0 <= x < store.active.len() && digests_of(store.active)[x] == d;
                if store.active[x].expiration.expired_at(now) {
                    let gone = expired_digests(store.active, now);
                    let y = choose|y: int| 0 <= y < gone.len() && gone[y] == d;
                    assert(moved.removed[store.removed.len() + y] == d);
                } else {
                    let y = choose|y: int| 0 <= y < moved.active.len() && moved.active[y] == store.active[x];
                    assert(digests_of(moved.active)[y] == d);
                }
            }
        },
    }
    let after = store.swept(now);
    if moved.is_expired(d) && moved.removed.len() > MAX_EXPIRED_SIZE + MAX_EXPIRED_MARGIN {
        let x = choose|x: int| 0 <= x < moved.removed.len() && moved.removed[x] == d;
        if x < MAX_EXPIRED_MARGIN {
            assert(moved.removed.take(MAX_EXPIRED_MARGIN as int)[x] == d);
        } else {
            assert(after.removed[x - MAX_EXPIRED_MARGIN] == d);
        }
    }
}

/// Evicting the oldest entries forgets no digest.
pub proof fn lemma_evict_oldest_known(store: StoreState, count: nat, d: Seq<char>)
    requires
        store.knows(d),
    ensures
        ({
            let (active, removed) = evict_oldest(store.active, store.removed, count);
            (StoreState { active, removed, ..store }).knows(d)
        }),
    decreases count,
{
    if count == 0 || store.active.len() == 0 {
    } else {
        let oldest = oldest_index(store.active);
        lemma_oldest_index(store.active);
        let next = StoreState {
            active: store.active.remove(oldest),
            removed: store.removed.push(store.active[oldest].update.digest),
            ..store
        };
        lemma_known_after_move(store, oldest, d);
        lemma_evict_oldest_known(next, (count - 1) as nat, d);
    }
}

/// The entries of a store as they stand in contracts.
pub open spec fn entries_view(entries: Seq<(Update, UpdateExpirationValue)>) -> Seq<ActiveUpdate> {
    Seq::new(entries.len(), |i: int| ActiveUpdate { update: entries[i].0@, expiration: entries[i].1 })
}

/// The updates of a list as they stand in contracts.
pub open spec fn updates_view(updates: Seq<Update>) -> Seq<UpdateView> {
    Seq::new(updates.len(), |i: int| updates[i]@)
}

/// The texts of a list of strings.
pub open spec fn texts_view(texts: Seq<String>) -> Seq<Seq<char>> {
    Seq::new(texts.len(), |i: int| texts[i]@)
}

/// The updates that a node holds: the active ones, which it advertises, and
/// the digests of those that have expired, which it refuses to take again.
pub struct UpdateDecorator {
    active_updates: Vec<(Update, UpdateExpirationValue)>,
    removed_updates: Vec<String>,
    expiration_mode: UpdateExpirationMode,
}

impl View for UpdateDecorator {
    type V = StoreState;

    closed spec fn view(&self) -> StoreState {
        StoreState {
            active: entries_view(self.active_updates@),
            removed: texts_view(self.removed_updates@),
            mode: self.expiration_mode,
        }
    }
}

impl UpdateDecorator {
    /// An empty store under the given expiration policy.
    pub fn new(expiration_mode: UpdateExpirationMode) -> (store: UpdateDecorator)
        ensures
            store@ == (StoreState { active: Seq::empty(), removed: Seq::empty(), mode: expiration_mode }),
            store@.wf(),
    {
        let store = UpdateDecorator {
            active_updates: Vec::new(),
            removed_updates: Vec::new(),
            expiration_mode,
        };
        assert(store@.active =~= Seq::empty());
        assert(store@.removed =~= Seq::empty());
        store
    }

    /// The number of active updates.
    pub fn active_count(&self) -> (count: usize)
        ensures
            count == self@.active.len(),
    {
        self.active_updates.len()
    }

    /// The digests of the active updates, in the order of their admission.
    pub fn active_headers(&self) -> (headers: Vec<String>)
        ensures
            headers.deep_view() == digests_of(self@.active),
    {
        let mut headers: Vec<String> = Vec::new();
        let mut i: usize = 0;
        while i < self.active_updates.len()
            invariant
                i <= self.active_updates.len(),
                headers@.len() == i,
                forall|k: int| 0 <= k < i ==> headers@[k]@ == self.active_updates@[k].0@.digest,
            decreases self.active_updates.len() - i,
        {
            headers.push(self.active_updates[i].0.digest.clone());
            i += 1;
        }
        assert(headers.deep_view() =~= digests_of(self@.active));
        headers
    }

    fn position_of(&self, digest: &String) -> (position: Option<usize>)
        ensures
            match position {
                Some(i) => i < self@.active.len() && self@.active[i as int].update.digest == digest@ && i
                    == self@.position_of(digest@),
                None => !self@.is_active(digest@),
            },
    {
        let mut i: usize = 0;
        while i < self.active_updates.len()
            invariant
                i <= self.active_updates.len(),
                forall|k: int| 0 <= k < i ==> (#[trigger] self@.active[k]).update.digest != digest@,
            decreases self.active_updates.len() - i,
        {
            if self.active_updates[i].0.digest == *digest {
                proof {
                    assert(self@.active[i as int].update.digest == digest@);
                    let chosen = self@.position_of(digest@);
                    assert(chosen == i) by {
                        if chosen < i {
                            assert(self@.active[chosen].update.digest != digest@);
                        } else if chosen > i {
                            assert(self@.active[i as int].update.digest != digest@);
                        }
                    }
                }
                return Some(i);
            }
            i += 1;
        }
        proof {
            if self@.is_active(digest@) {
                let k = choose|k: int| 0 <= k < self@.active.len() && digests_of(self@.active)[k] == digest@;
                assert(self@.active[k].update.digest == digest@);
            }
        }
        None
    }

    /// Whether `digest` is neither active nor remembered as expired.
    pub fn is_new(&self, digest: &String) -> (fresh: bool)
        ensures
            fresh == self@.is_new(digest@),
    {
        !self.is_active(digest) && !self.is_expired(digest)
    }

    /// Whether `digest` is remembered as expired.
    pub fn is_expired(&self, digest: &String) -> (expired: bool)
        ensures
            expired == self@.is_expired(digest@),
    {
        let mut i: usize = 0;
        while i < self.removed_updates.len()
            invariant
                i <= self.removed_updates.len(),
                forall|k: int| 0 <= k < i ==> self.removed_updates@[k]@ != digest@,
            decreases self.removed_updates.len() - i,
        {
            if self.removed_updates[i] == *digest {
                assert(self@.removed[i as int] == digest@);
                return true;
            }
            i += 1;
        }
        false
    }

    /// Whether `digest` is among the active updates.
    pub fn is_active(&self, digest: &String) -> (active: bool)
        ensures
            active == self@.is_active(digest@),
    {
        match self.position_of(digest) {
            Some(i) => {
                assert(digests_of(self@.active)[i as int] == digest@);
                true
            },
            None => false,
        }
    }

    /// The active update with the given digest, if there is one.
    pub fn get_update(&self, digest: &str) -> (found: Option<&Update>)
        ensures
            found is Some <==> self@.is_active(digest@),
            found is Some ==> found->0@.digest == digest@ && exists|i: int|
                0 <= i < self@.active.len() && (#[trigger] self@.active[i]).update == found->0@,
            found is Some ==> found->0@.content == self@.content_of(digest@),
    {
        let wanted = digest.to_owned();
        match self.position_of(&wanted) {
            Some(i) => {
                assert(digests_of(self@.active)[i as int] == digest@);
                assert(self@.active[i as int].update == self.active_updates@[i as int].0@);
                Some(&self.active_updates[i].0)
            },
            None => None,
        }
    }

    /// Admits `update` at time `now` unless the store knows its digest: an
    /// active digest gives `AlreadyActive`, an expired one `AlreadyExpired`,
    /// and the store is then left as it was.
    pub fn insert_update(&mut self, update: Update, now: u128) -> (result: Result<(), SubmitError>)
        ensures
            result == old(self)@.admission(update@.digest),
            final(self)@ == if result is Ok {
                old(self)@.inserted(update@, now)
            } else {
                old(self)@
            },
            old(self)@.wf() ==> final(self)@.wf(),
    {
        if self.is_active(&update.digest) {
            return Err(SubmitError::AlreadyActive);
        }
        if self.is_expired(&update.digest) {
            return Err(SubmitError::AlreadyExpired);
        }
        proof {
            use_type_invariant(&update);
            if self@.wf() {
                lemma_inserted_wf(self@, update@, now);
            }
        }
        let expiration = UpdateExpirationValue::new(self.expiration_mode, now);
        self.active_updates.push((update, expiration));
        assert(self@.active =~= old(self)@.inserted(update@, now).active);
        Ok(())
    }

    /// Forgets every update, active or expired.
    pub fn clear(&mut self)
        ensures
            final(self)@ == old(self)@.cleared(),
            final(self)@.wf(),
    {
        self.active_updates.clear();
        self.removed_updates.clear();
        assert(self@.active =~= Seq::empty());
        assert(self@.removed =~= Seq::empty());
    }

    /// The digests of the active updates, for an advertisement that is about
    /// to be sent: the advertisement is counted on every one of them.
    pub fn active_headers_for_push(&mut self) -> (headers: Vec<String>)
        ensures
            headers.deep_view() == digests_of(old(self)@.active),
            final(self)@ == old(self)@.pushed(),
            old(self)@.wf() ==> final(self)@.wf(),
    {
        let mut headers: Vec<String> = Vec::new();
        let mut i: usize = 0;
        while i < self.active_updates.len()
            invariant
                i <= self.active_updates.len(),
                self.active_updates@.len() == old(self).active_updates@.len(),
                self.removed_updates == old(self).removed_updates,
                self.expiration_mode == old(self).expiration_mode,
                headers@.len() == i,
                forall|k: int| 0 <= k < i ==> headers@[k]@ == old(self).active_updates@[k].0@.digest,
                forall|k: int|
                    0 <= k < self.active_updates@.len() ==> (#[trigger] self.active_updates@[k]).0@ == old(
                        self,
                    ).active_updates@[k].0@,
                forall|k: int|
                    0 <= k < i ==> (#[trigger] self.active_updates@[k]).1 == old(
                        self,
                    ).active_updates@[k].1.pushed(),
                forall|k: int|
                    i <= k < self.active_updates@.len() ==> (#[trigger] self.active_updates@[k]).1 == old(
                        self,
                    ).active_updates@[k].1,
            decreases self.active_updates.len() - i,
        {
            self.active_updates[i].1.increase_push_count();
            headers.push(self.active_updates[i].0.digest.clone());
            i += 1;
        }
        proof {
            if old(self)@.wf() {
                lemma_pushed_wf(old(self)@);
            }
            assert(self@.active =~= old(self)@.pushed().active);
            assert(headers.deep_view() =~= digests_of(old(self)@.active));
        }
        headers
    }

    fn oldest_position(&self) -> (position: usize)
        requires
            self@.active.len() > 0,
        ensures
            position == oldest_index(self@.active),
    {
        let mut position: usize = 0;
        let mut i: usize = 1;
        assert(self@.active.take(1).len() == 1);
        while i < self.active_updates.len()
            invariant
                1 <= i <= self.active_updates.len(),
                position == oldest_index(self@.active.take(i as int)),
                position < i,
            decreases self.active_updates.len() - i,
        {
            proof {
                let upto = self@.active.take(i + 1);
                assert(upto.drop_last() =~= self@.active.take(i as int));
                assert(upto.last() == self@.active[i as int]);
                assert(upto[position as int] == self@.active[position as int]);
            }
            if self.active_updates[i].1.created() < self.active_updates[position].1.created() {
                position = i;
            }
            i += 1;
        }
        assert(self@.active.take(self@.active.len() as int) =~= self@.active);
        position
    }

    /// The expiration sweep at time `now`. Under a duration or a push count
    /// every expired update leaves the active ones and its digest joins the
    /// expired ones; under most-recent, once more updates are active than
    /// size and slack together, the oldest leave until `size` are left. Then
    /// the list of expired digests is cut if it has grown too long.
    pub fn clear_expired(&mut self, now: u128)
        ensures
            final(self)@ == old(self)@.swept(now),
            old(self)@.wf() ==> final(self)@.wf(),
    {
        proof {
            if self@.wf() {
                lemma_swept_wf(self@, now);
            }
        }
        match self.expiration_mode {
            UpdateExpirationMode::Never => {},
            UpdateExpirationMode::MostRecent(size, slack) => {
                let len = self.active_updates.len();
                if len > size && len - size > slack {
                    let count = len - size;
                    let mut evicted: usize = 0;
                    while evicted < count
                        invariant
                            evicted <= count <= len,
                            self.active_updates@.len() == len - evicted,
                            self.expiration_mode == old(self).expiration_mode,
                            evict_oldest(self@.active, self@.removed, (count - evicted) as nat) == evict_oldest(
                                old(self)@.active,
                                old(self)@.removed,
                                count as nat,
                            ),
                        decreases count - evicted,
                    {
                        let ghost before = self@;
                        let oldest = self.oldest_position();
                        proof {
                            lemma_oldest_index(before.active);
                        }
                        let (update, _) = self.active_updates.remove(oldest);
                        self.removed_updates.push(update.digest);
                        evicted += 1;
                        proof {
                            assert(self@.active =~= before.active.remove(oldest as int));
                            assert(self@.removed =~= before.removed.push(
                                before.active[oldest as int].update.digest,
                            ));
                        }
                    }
                }
            },
            _ => {
                let mut entries: Vec<(Update, UpdateExpirationValue)> = Vec::new();
                core::mem::swap(&mut entries, &mut self.active_updates);
                let ghost all = entries@;
                let ghost before = entries_view(all);
                let ghost removed_before = texts_view(self.removed_updates@);
                assert(before =~= old(self)@.active);
                for entry in it: entries
                    invariant
                        it.seq() == all,
                        before == entries_view(all),
                        self.expiration_mode == old(self).expiration_mode,
                        entries_view(self.active_updates@) == live_entries(before.take(it.index() as int), now),
                        texts_view(self.removed_updates@) == removed_before + expired_digests(
                            before.take(it.index() as int),
                            now,
                        ),
                {
                    proof {
                        let upto = before.take(it.index() + 1);
                        assert(upto.drop_last() =~= before.take(it.index() as int));
                        assert(upto.last() == before[it.index() as int]);
                    }
                    let ghost so_far = texts_view(self.removed_updates@);
                    let (update, expiration) = entry;
                    if expiration.has_expired(now) {
                        self.removed_updates.push(update.digest);
                        assert(texts_view(self.removed_updates@) =~= so_far.push(
                            before[it.index() as int].update.digest,
                        ));
                        assert(so_far.push(before[it.index() as int].update.digest) =~= removed_before
                            + expired_digests(before.take(it.index() + 1), now));
                    } else {
                        self.active_updates.push((update, expiration));
                    }
                }
                assert(before.take(before.len() as int) =~= before);
            },
        }
        assert(self@ =~= old(self)@.expired_moved(now));
        if self.removed_updates.len() > MAX_EXPIRED_SIZE + MAX_EXPIRED_MARGIN {
            let kept = self.removed_updates.split_off(MAX_EXPIRED_MARGIN);
            self.removed_updates = kept;
        }
        assert(self@.removed =~= trimmed(old(self)@.expired_moved(now).removed));
    }
}

} // verus!
