//! The parameters of the two protocols, and what is held with an update to
//! decide its expiration.

use vstd::prelude::*;

verus! {

/// Parameters of the peer sampling protocol.
#[derive(Clone, Copy, Debug)]
pub struct PeerSamplingConfig {
    push: bool,
    pull: bool,
    sampling_period: u64,
    sampling_deviation: u64,
    view_size: usize,
    healing_factor: usize,
    swapping_factor: usize,
}

impl PeerSamplingConfig {
    /// A configuration with a fixed period.
    pub fn new(
        push: bool,
        pull: bool,
        sampling_period: u64,
        view_size: usize,
        healing_factor: usize,
        swapping_factor: usize,
    ) -> (config: PeerSamplingConfig)
        ensures
            config.is_push() == push,
            config.is_pull() == pull,
            config.sampling_period() == sampling_period,
            config.sampling_deviation() == 0,
            config.view_size() == view_size,
            config.healing_factor() == healing_factor,
            config.swapping_factor() == swapping_factor,
    {
        PeerSamplingConfig {
            push,
            pull,
            sampling_period,
            sampling_deviation: 0,
            view_size,
            healing_factor,
            swapping_factor,
        }
    }

    /// A configuration whose period is lengthened by a random delay below
    /// `sampling_deviation`, so that nodes started together drift apart.
    pub fn new_with_deviation(
        push: bool,
        pull: bool,
        sampling_period: u64,
        sampling_deviation: u64,
        view_size: usize,
        healing_factor: usize,
        swapping_factor: usize,
    ) -> (config: PeerSamplingConfig)
        ensures
            config.is_push() == push,
            config.is_pull() == pull,
            config.sampling_period() == sampling_period,
            config.sampling_deviation() == sampling_deviation,
            config.view_size() == view_size,
            config.healing_factor() == healing_factor,
            config.swapping_factor() == swapping_factor,
    {
        PeerSamplingConfig {
            push,
            pull,
            sampling_period,
            sampling_deviation,
            view_size,
            healing_factor,
            swapping_factor,
        }
    }

    /// Milliseconds between two outbound exchanges.
    #[verifier::when_used_as_spec(spec_sampling_period)]
    pub fn sampling_period(&self) -> (value: u64)
        ensures
            value == self.sampling_period(),
    {
        self.sampling_period
    }

    pub closed spec fn spec_sampling_period(&self) -> u64 {
        self.sampling_period
    }

    /// Exclusive bound of the random delay added to the period; 0 adds none.
    #[verifier::when_used_as_spec(spec_sampling_deviation)]
    pub fn sampling_deviation(&self) -> (value: u64)
        ensures
            value == self.sampling_deviation(),
    {
        self.sampling_deviation
    }

    pub closed spec fn spec_sampling_deviation(&self) -> u64 {
        self.sampling_deviation
    }

    /// How many of the oldest peers an exchange ejects.
    #[verifier::when_used_as_spec(spec_healing_factor)]
    pub fn healing_factor(&self) -> (value: usize)
        ensures
            value == self.healing_factor(),
    {
        self.healing_factor
    }

    pub closed spec fn spec_healing_factor(&self) -> usize {
        self.healing_factor
    }

    /// How many peers an exchange drops from the head of the view.
    #[verifier::when_used_as_spec(spec_swapping_factor)]
    pub fn swapping_factor(&self) -> (value: usize)
        ensures
            value == self.swapping_factor(),
    {
        self.swapping_factor
    }

    pub closed spec fn spec_swapping_factor(&self) -> usize {
        self.swapping_factor
    }

    /// The most peers a view holds after a merge.
    #[verifier::when_used_as_spec(spec_view_size)]
    pub fn view_size(&self) -> (value: usize)
        ensures
            value == self.view_size(),
    {
        self.view_size
    }

    pub closed spec fn spec_view_size(&self) -> usize {
        self.view_size
    }

    /// Whether the node answers a request with its own view.
    #[verifier::when_used_as_spec(spec_is_pull)]
    pub fn is_pull(&self) -> (value: bool)
        ensures
            value == self.is_pull(),
    {
        self.pull
    }

    pub closed spec fn spec_is_pull(&self) -> bool {
        self.pull
    }

    /// Whether the node sends its view when it starts an exchange.
    #[verifier::when_used_as_spec(spec_is_push)]
    pub fn is_push(&self) -> (value: bool)
        ensures
            value == self.is_push(),
    {
        self.push
    }

    pub closed spec fn spec_is_push(&self) -> bool {
        self.push
    }
}

impl Default for PeerSamplingConfig {
    fn default() -> (config: PeerSamplingConfig)
        ensures
            config.is_push(),
            config.is_pull(),
            config.sampling_period() == 60000,
            config.sampling_deviation() == 0,
            config.view_size() == 30,
            config.healing_factor() == 3,
            config.swapping_factor() == 12,
    {
        PeerSamplingConfig {
            push: true,
            pull: true,
            sampling_period: 60000,
            sampling_deviation: 0,
            view_size: 30,
            healing_factor: 3,
            swapping_factor: 12,
        }
    }
}

/// How updates leave the active set.
#[derive(Clone, Copy, Debug, PartialEq, Eq, Structural)]
pub enum UpdateExpirationMode {
    /// Updates never expire.
    Never,
    /// An update expires once it has been held for this many milliseconds.
    DurationMillis(u128),
    /// An update expires once it has been advertised this many times.
    PushCount(u64),
    /// Only the most recent updates are kept. The first number is how many
    /// stay after an eviction; the second is how many more may pile up before
    /// an eviction takes place.
    MostRecent(usize, usize),
}

/// What is held with an active update to decide when it expires.
#[derive(Clone, Copy, Debug, PartialEq, Eq, Structural)]
pub enum UpdateExpirationValue {
    /// Never expires.
    Never,
    /// Creation time and time to live, both in milliseconds.
    DurationMillis(u128, u128),
    /// Advertisements left.
    PushCount(u64),
    /// Creation time in milliseconds; eviction is decided over the whole set.
    MostRecent(u128),
}

/// Milliseconds from `since` to `now`; a clock reading before `since` counts
/// as no time at all.
pub open spec fn elapsed_millis(since: u128, now: u128) -> u128 {
    if now >= since {
        (now - since) as u128
    } else {
        0
    }
}

/// The value that a fresh update gets under `mode` at time `now`.
pub open spec fn initial_expiration(mode: UpdateExpirationMode, now: u128) -> UpdateExpirationValue {
    match mode {
        UpdateExpirationMode::Never => UpdateExpirationValue::Never,
        UpdateExpirationMode::PushCount(count) => UpdateExpirationValue::PushCount(count),
        UpdateExpirationMode::DurationMillis(ttl) => UpdateExpirationValue::DurationMillis(now, ttl),
        UpdateExpirationMode::MostRecent(_, _) => UpdateExpirationValue::MostRecent(now),
    }
}

impl UpdateExpirationValue {
    /// The value that a fresh update gets under `expiration_mode` when it is
    /// created at `now` (milliseconds on the caller's clock).
    pub fn new(expiration_mode: UpdateExpirationMode, now: u128) -> (value: UpdateExpirationValue)
        ensures
            value == initial_expiration(expiration_mode, now),
    {
        match expiration_mode {
            UpdateExpirationMode::Never => UpdateExpirationValue::Never,
            UpdateExpirationMode::PushCount(count) => UpdateExpirationValue::PushCount(count),
            UpdateExpirationMode::DurationMillis(ttl) => UpdateExpirationValue::DurationMillis(now, ttl),
            UpdateExpirationMode::MostRecent(_, _) => UpdateExpirationValue::MostRecent(now),
        }
    }

    /// The value after one more advertisement.
    pub open spec fn pushed(self) -> UpdateExpirationValue {
        match self {
            UpdateExpirationValue::PushCount(count) => UpdateExpirationValue::PushCount(
                if count > 0 {
                    (count - 1) as u64
                } else {
                    0
                },
            ),
            _ => self,
        }
    }

    /// Whether the update has expired at `now`.
    pub open spec fn expired_at(self, now: u128) -> bool {
        match self {
            UpdateExpirationValue::Never => false,
            UpdateExpirationValue::PushCount(count) => count == 0,
            UpdateExpirationValue::DurationMillis(created, ttl) => elapsed_millis(created, now) >= ttl,
            UpdateExpirationValue::MostRecent(_) => false,
        }
    }

    /// The creation time that the value records, 0 where it records none.
    pub open spec fn created_at(self) -> u128 {
        match self {
            UpdateExpirationValue::DurationMillis(created, _) => created,
            UpdateExpirationValue::MostRecent(created) => created,
            _ => 0,
        }
    }

    /// Whether the value is of the kind that `mode` creates.
    pub open spec fn fits(self, mode: UpdateExpirationMode) -> bool {
        match mode {
            UpdateExpirationMode::Never => self is Never,
            UpdateExpirationMode::PushCount(_) => self is PushCount,
            UpdateExpirationMode::DurationMillis(_) => self is DurationMillis,
            UpdateExpirationMode::MostRecent(_, _) => self is MostRecent,
        }
    }

    /// Counts one advertisement: a push count goes down by one and stays at 0
    /// once it is there; the other kinds are untouched.
    pub fn increase_push_count(&mut self)
        ensures
            *final(self) == old(self).pushed(),
    {
        match self {
            UpdateExpirationValue::PushCount(count) => {
                if *count > 0 {
                    *count -= 1
                }
            },
            _ => (),
        }
    }

    /// Whether the update has expired at `now` (milliseconds on the clock that
    /// gave the creation time).
    pub fn has_expired(&self, now: u128) -> (expired: bool)
        ensures
            expired == self.expired_at(now),
    {
        match self {
            UpdateExpirationValue::Never => false,
            UpdateExpirationValue::PushCount(count) => *count == 0,
            UpdateExpirationValue::DurationMillis(created, ttl) => {
                let elapsed: u128 = if now >= *created {
                    now - *created
                } else {
                    0
                };
                elapsed >= *ttl
            },
            UpdateExpirationValue::MostRecent(_) => false,
        }
    }

    /// The creation time that the value records, 0 where it records none.
    pub fn created(&self) -> (created: u128)
        ensures
            created == self.created_at(),
    {
        match self {
            UpdateExpirationValue::DurationMillis(created, _) => *created,
            UpdateExpirationValue::MostRecent(created) => *created,
            _ => 0,
        }
    }
}

/// Parameters of the gossip protocol.
#[derive(Clone, Copy, Debug)]
pub struct GossipConfig {
    push: bool,
    pull: bool,
    gossip_period: u64,
    gossip_deviation: u64,
    update_expiration: UpdateExpirationMode,
}

impl GossipConfig {
    /// A configuration with a fixed period.
    pub fn new(push: bool, pull: bool, gossip_period: u64, update_expiration: UpdateExpirationMode) -> (config:
        GossipConfig)
        ensures
            config.is_push() == push,
            config.is_pull() == pull,
            config.gossip_period() == gossip_period,
            config.gossip_deviation() == 0,
            config.spec_update_expiration() == update_expiration,
    {
        GossipConfig { push, pull, gossip_period, gossip_deviation: 0, update_expiration }
    }

    /// A configuration whose period is lengthened by a random delay below
    /// `gossip_deviation`.
    pub fn new_with_deviation(
        push: bool,
        pull: bool,
        gossip_period: u64,
        gossip_deviation: u64,
        update_expiration: UpdateExpirationMode,
    ) -> (config: GossipConfig)
        ensures
            config.is_push() == push,
            config.is_pull() == pull,
            config.gossip_period() == gossip_period,
            config.gossip_deviation() == gossip_deviation,
            config.spec_update_expiration() == update_expiration,
    {
        GossipConfig { push, pull, gossip_period, gossip_deviation, update_expiration }
    }

    /// Whether the node advertises its updates when it starts an exchange.
    #[verifier::when_used_as_spec(spec_is_push)]
    pub fn is_push(&self) -> (value: bool)
        ensures
            value == self.is_push(),
    {
        self.push
    }

    pub closed spec fn spec_is_push(&self) -> bool {
        self.push
    }

    /// Whether the node answers an advertisement with its own and asks for what an answer advertises.
    #[verifier::when_used_as_spec(spec_is_pull)]
    pub fn is_pull(&self) -> (value: bool)
        ensures
            value == self.is_pull(),
    {
        self.pull
    }

    pub closed spec fn spec_is_pull(&self) -> bool {
        self.pull
    }

    /// Milliseconds between two outbound advertisements.
    #[verifier::when_used_as_spec(spec_gossip_period)]
    pub fn gossip_period(&self) -> (value: u64)
        ensures
            value == self.gossip_period(),
    {
        self.gossip_period
    }

    pub closed spec fn spec_gossip_period(&self) -> u64 {
        self.gossip_period
    }

    /// Exclusive bound of the random delay added to the period; 0 adds none.
    #[verifier::when_used_as_spec(spec_gossip_deviation)]
    pub fn gossip_deviation(&self) -> (value: u64)
        ensures
            value == self.gossip_deviation(),
    {
        self.gossip_deviation
    }

    pub closed spec fn spec_gossip_deviation(&self) -> u64 {
        self.gossip_deviation
    }

    /// How updates expire.
    pub fn update_expiration(&self) -> (mode: &UpdateExpirationMode)
        ensures
            *mode == self.spec_update_expiration(),
    {
        &self.update_expiration
    }

    pub closed spec fn spec_update_expiration(&self) -> UpdateExpirationMode {
        self.update_expiration
    }
}

impl Default for GossipConfig {
    fn default() -> (config: GossipConfig)
        ensures
            config.is_push(),
            config.is_pull(),
            config.gossip_period() == 1000,
            config.gossip_deviation() == 0,
            config.spec_update_expiration() == UpdateExpirationMode::Never,
    {
        GossipConfig {
            push: true,
            pull: true,
            gossip_period: 1000,
            gossip_deviation: 0,
            update_expiration: UpdateExpirationMode::Never,
        }
    }
}

} // verus!
