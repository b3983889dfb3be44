//! Chance: shuffling, sampling and fresh identifiers.
//!
//! Nothing here can say which outcome chance picks. The contracts state what
//! holds of every outcome.

use rand::seq::SliceRandom;
use vstd::prelude::*;

verus! {

/// `p` lists every index below `n` exactly once.
pub open spec fn is_rearrangement(p: Seq<int>, n: nat) -> bool {
    &&& p.len() == n
    &&& forall|i: int| 0 <= i < n ==> 0 <= #[trigger] p[i] < n
    &&& forall|i: int, j: int| 0 <= i < j < n ==> p[i] != p[j]
}

/// `after` holds the items of `before`, each once, in the order `p` gives.
pub open spec fn is_shuffle_by<T>(after: Seq<T>, before: Seq<T>, p: Seq<int>) -> bool {
    &&& is_rearrangement(p, before.len())
    &&& after.len() == before.len()
    &&& forall|i: int| 0 <= i < after.len() ==> #[trigger] after[i] == before[p[i]]
}

/// `after` holds the items of `before`, each once, in some order.
pub open spec fn is_shuffle_of<T>(after: Seq<T>, before: Seq<T>) -> bool {
    exists|p: Seq<int>| is_shuffle_by(after, before, p)
}

/// `picks` are the items of `pool` at the positions `at`, no position twice.
pub open spec fn is_sample_by<T>(picks: Seq<T>, pool: Seq<T>, at: Seq<int>) -> bool {
    &&& at.len() == picks.len()
    &&& forall|i: int| 0 <= i < at.len() ==> 0 <= #[trigger] at[i] < pool.len()
    &&& forall|i: int, j: int| 0 <= i < j < at.len() ==> at[i] != at[j]
    &&& forall|i: int| 0 <= i < picks.len() ==> #[trigger] picks[i] == pool[at[i]]
}

/// `picks` are items of `pool` taken at pairwise different positions.
pub open spec fn is_sample_of<T>(picks: Seq<T>, pool: Seq<T>) -> bool {
    exists|at: Seq<int>| is_sample_by(picks, pool, at)
}

/// Calls `rand::seq::SliceRandom::shuffle` on the items with the thread's
/// generator. The claim: the items are moved about by swaps only, so
/// afterwards the vector holds the same items, each once, in some order.
#[verifier::external_body]
pub(crate) fn shuffle_in_place<T>(items: &mut Vec<T>)
    ensures
        is_shuffle_of(final(items)@, old(items)@),
{
    items.shuffle(&mut rand::thread_rng());
}

/// Calls `rand::seq::SliceRandom::choose_multiple` on the pool with the
/// thread's generator. The claim: it yields `amount` items, or all of them
/// where the pool holds fewer, taken at pairwise different positions.
#[verifier::external_body]
pub(crate) fn choose_multiple<T: Copy>(pool: &Vec<T>, amount: usize) -> (picks: Vec<T>)
    ensures
        picks.len() == if amount <= pool.len() { amount } else { pool.len() },
        is_sample_of(picks@, pool@),
{
    pool.choose_multiple(&mut rand::thread_rng(), amount).copied().collect()
}

/// Calls `uuid::Uuid::new_v4` and hands the identifier out as the number it
/// encodes. Nothing is claimed of the value: it is random.
#[verifier::external_body]
pub(crate) fn fresh_id() -> (id: u128)
{
    uuid::Uuid::new_v4().as_u128()
}

/// A map through `f` of a shuffle is a shuffle of the map.
pub proof fn lemma_shuffle_maps<T, U>(after: Seq<T>, before: Seq<T>, f: spec_fn(T) -> U)
    requires
        is_shuffle_of(after, before),
    ensures
        is_shuffle_of(after.map_values(f), before.map_values(f)),
{
    let p = choose|p: Seq<int>| is_shuffle_by(after, before, p);
    assert(is_shuffle_by(after.map_values(f), before.map_values(f), p));
}

} // verus!
