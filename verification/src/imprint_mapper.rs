//! Hands the imprints of one round to the players of the next, at random.

use crate::drawing::{clone_optional_drawing, Drawing, StrokeSpec};
use crate::random::{is_rearrangement, is_shuffle_by, shuffle_in_place};
use vstd::prelude::*;

verus! {

/// Mathematical value of an imprint map: players, each with the fragment
/// held for them, if any.
pub type ImprintMapSpec = Seq<(u128, Option<Seq<StrokeSpec>>)>;

/// The map in which the player at each position holds the fragment that
/// `imprints` has at the position `order` names.
pub open spec fn redistributed(imprints: ImprintMapSpec, order: Seq<int>) -> ImprintMapSpec {
    Seq::new(imprints.len(), |i: int| (imprints[i].0, imprints[order[i]].1))
}

/// Whether `after` gives the players of `before`, in their order, the
/// fragments of `before` in some other order. A player may get their own
/// fragment back.
pub open spec fn is_redistribution(after: ImprintMapSpec, before: ImprintMapSpec) -> bool {
    exists|order: Seq<int>|
        is_rearrangement(order, before.len()) && after == #[trigger] redistributed(before, order)
}

/// The numbers below `n`, in order.
pub fn positions(n: usize) -> (r: Vec<usize>)
    ensures
        r.len() == n,
        forall|i: int| 0 <= i < n ==> r@[i] == i,
{
    let mut r: Vec<usize> = Vec::new();
    let mut i: usize = 0;
    while i < n
        invariant
            i <= n,
            r.len() == i,
            forall|j: int| 0 <= j < i ==> r@[j] == j,
        decreases n - i,
    {
        r.push(i);
        i += 1;
    }
    r
}

/// Gives the player at each position the fragment at the position that
/// `order` names.
pub fn redistribute(imprint_map: &Vec<(u128, Option<Drawing>)>, order: &Vec<usize>) -> (r: Vec<
    (u128, Option<Drawing>),
>)
    requires
        order.len() == imprint_map.len(),
        forall|i: int| 0 <= i < order.len() ==> order@[i] < imprint_map.len(),
    ensures
        r.deep_view() == redistributed(imprint_map.deep_view(), order@.map_values(|k: usize| k as int)),
{
    let mut r: Vec<(u128, Option<Drawing>)> = Vec::new();
    let mut i: usize = 0;
    while i < imprint_map.len()
        invariant
            i <= imprint_map.len(),
            order.len() == imprint_map.len(),
            forall|j: int| 0 <= j < order.len() ==> order@[j] < imprint_map.len(),
            r.len() == i,
            forall|j: int|
                0 <= j < i ==> (#[trigger] r@[j]).deep_view() == (
                    imprint_map@[j].0,
                    imprint_map@[order@[j] as int].1.deep_view(),
                ),
        decreases imprint_map.len() - i,
    {
        let fragment = clone_optional_drawing(&imprint_map[order[i]].1);
        r.push((imprint_map[i].0, fragment));
        i += 1;
    }
    assert(r.deep_view() =~= redistributed(
        imprint_map.deep_view(),
        order@.map_values(|k: usize| k as int),
    ));
    r
}

/// Assigns each fragment to a random player of the map, who may be the one
/// it came from.
pub fn random(imprint_map: &Vec<(u128, Option<Drawing>)>) -> (r: Vec<(u128, Option<Drawing>)>)
    ensures
        is_redistribution(r.deep_view(), imprint_map.deep_view()),
{
    let mut order = positions(imprint_map.len());
    let ghost identity = order@;
    shuffle_in_place(&mut order);
    proof {
        let p = choose|p: Seq<int>| is_shuffle_by(order@, identity, p);
        assert forall|i: int| 0 <= i < order.len() implies order@[i] == p[i] by {
            assert(order@[i] == identity[p[i]]);
        }
    }
    let r = redistribute(imprint_map, &order);
    proof {
        let p = choose|p: Seq<int>| is_shuffle_by(order@, identity, p);
        let as_ints = order@.map_values(|k: usize| k as int);
        assert(as_ints =~= p);
        assert(is_rearrangement(as_ints, imprint_map.deep_view().len()));
        assert(r.deep_view() == redistributed(imprint_map.deep_view(), as_ints));
    }
    r
}

} // verus!
