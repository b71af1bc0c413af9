//! The random choices of the protocols: positions, orders and delays.

use vstd::prelude::*;
use rand::seq::SliceRandom;
use rand::Rng;
use crate::peer::Peer;

verus! {

/// Whether `after` holds the items of `before` in another order, where `from`
/// says for each position of `after` where its item stood in `before`, and
/// `to` says for each position of `before` where its item went.
pub open spec fn rearranged_by<T>(before: Seq<T>, after: Seq<T>, from: Seq<int>, to: Seq<int>) -> bool {
    &&& after.len() == before.len()
    &&& from.len() == before.len()
    &&& to.len() == before.len()
    &&& forall|i: int|
        0 <= i < after.len() ==> 0 <= #[trigger] from[i] < before.len() && after[i] == before[from[i]]
            && to[from[i]] == i
    &&& forall|j: int| 0 <= j < before.len() ==> 0 <= #[trigger] to[j] < after.len() && from[to[j]] == j
}

/// Whether `after` holds the items of `before` in some order.
pub open spec fn is_rearrangement<T>(before: Seq<T>, after: Seq<T>) -> bool {
    exists|from: Seq<int>, to: Seq<int>| rearranged_by(before, after, from, to)
}

/// `Rng::gen_range(0, bound)` on `rand::thread_rng()`: some number from 0 up
/// to, not including, `bound`. Which one is left open. A bound of 0 is left
/// out, since the call panics on an empty range.
#[verifier::external_body]
pub(crate) fn random_below(bound: u64) -> (value: u64)
    requires
        bound > 0,
    ensures
        value < bound,
{
    rand::thread_rng().gen_range(0, bound)
}

/// `SliceRandom::shuffle` with `rand::thread_rng()`: the items are swapped
/// about in place, so the list holds the same items in some order. Which
/// order is left open.
#[verifier::external_body]
pub(crate) fn shuffle(peers: &mut Vec<Peer>)
    ensures
        is_rearrangement(old(peers)@, final(peers)@),
{
    peers.shuffle(&mut rand::thread_rng())
}

/// `period` lengthened by `jitter`, held at the largest number that fits.
pub open spec fn delayed(period: u64, jitter: u64) -> u64 {
    if period + jitter > u64::MAX {
        u64::MAX
    } else {
        (period + jitter) as u64
    }
}

/// The time to wait before a cycle, given the random delay that was drawn.
pub fn period_with_jitter(period: u64, jitter: u64) -> (wait: u64)
    ensures
        wait == delayed(period, jitter),
{
    if jitter > u64::MAX - period {
        u64::MAX
    } else {
        period + jitter
    }
}

/// The time to wait before the next cycle: the period, lengthened by a random
/// delay below `deviation` where that is not 0.
pub fn next_period(period: u64, deviation: u64) -> (wait: u64)
    ensures
        deviation == 0 ==> wait == period,
        deviation > 0 ==> exists|jitter: u64| jitter < deviation && wait == delayed(period, jitter),
{
    if deviation == 0 {
        period
    } else {
        let jitter = random_below(deviation);
        period_with_jitter(period, jitter)
    }
}

/// Some position in a list of `len` items.
pub(crate) fn random_index(len: usize) -> (index: usize)
    requires
        len > 0,
    ensures
        index < len,
{
    random_below(len as u64) as usize
}

} // verus!
