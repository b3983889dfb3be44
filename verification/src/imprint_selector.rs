//! Picks the strokes that a finished drawing hands on to the next round.

use crate::drawing::{Drawing, Stroke, StrokeSpec};
use crate::random::{choose_multiple, is_sample_by, is_sample_of};
use vstd::prelude::*;

verus! {

/// The strokes of an optional drawing; none where there is no drawing.
pub open spec fn strokes_of(drawing: Option<Seq<StrokeSpec>>) -> Seq<StrokeSpec> {
    match drawing {
        Some(strokes) => strokes,
        None => Seq::empty(),
    }
}

/// The strokes to pick from: those of the drawing, then those of the imprint
/// it was drawn over.
pub open spec fn stroke_pool(drawing: Option<Seq<StrokeSpec>>, imprint: Option<Seq<StrokeSpec>>) -> Seq<
    StrokeSpec,
> {
    strokes_of(drawing) + strokes_of(imprint)
}

/// Whether `fragment` can be what is handed on of a drawing and its imprint
/// when at most `n` strokes are picked: nothing where there is neither, else
/// `n` strokes of the pool (all of them where it holds fewer), no stroke of the
/// pool picked twice.
pub open spec fn is_fragment_of(
    fragment: Option<Seq<StrokeSpec>>,
    drawing: Option<Seq<StrokeSpec>>,
    imprint: Option<Seq<StrokeSpec>>,
    n: nat,
) -> bool {
    let pool = stroke_pool(drawing, imprint);
    if drawing is None && imprint is None {
        fragment is None
    } else {
        &&& fragment matches Some(strokes)
        &&& strokes.len() == if n <= pool.len() { n } else { pool.len() }
        &&& is_sample_of(strokes, pool)
    }
}

/// All strokes of the drawing, then all of the imprint, by reference.
pub fn pool_strokes<'a>(drawing: &'a Option<Drawing>, imprint: &'a Option<Drawing>) -> (pool: Vec<
    &'a Stroke,
>)
    ensures
        pool.deep_view() == stroke_pool(drawing.deep_view(), imprint.deep_view()),
{
    let mut pool: Vec<&'a Stroke> = Vec::new();
    if let Some(strokes) = drawing {
        let mut i: usize = 0;
        while i < strokes.len()
            invariant
                i <= strokes.len(),
                pool.len() == i,
                forall|j: int| 0 <= j < i ==> (#[trigger] pool@[j]).deep_view() == strokes@[j].deep_view(),
            decreases strokes.len() - i,
        {
            pool.push(&strokes[i]);
            i += 1;
        }
    }
    assert(pool.deep_view() =~= strokes_of(drawing.deep_view()));
    if let Some(strokes) = imprint {
        let ghost first = pool.deep_view();
        let ghost k = pool.len();
        let mut i: usize = 0;
        while i < strokes.len()
            invariant
                i <= strokes.len(),
                first.len() == k,
                pool.len() == k + i,
                forall|j: int| 0 <= j < k ==> (#[trigger] pool@[j]).deep_view() == first[j],
                forall|j: int|
                    0 <= j < i ==> (#[trigger] pool@[k + j]).deep_view() == strokes@[j].deep_view(),
            decreases strokes.len() - i,
        {
            pool.push(&strokes[i]);
            i += 1;
        }
        assert forall|j: int| 0 <= j < pool.len() implies (#[trigger] pool.deep_view()[j]) == (first
            + strokes.deep_view())[j] by {
            if j >= k {
                assert(pool@[k + (j - k)].deep_view() == strokes@[j - k].deep_view());
            }
        }
        assert(pool.deep_view() =~= first + strokes.deep_view());
    }
    assert(pool.deep_view() =~= stroke_pool(drawing.deep_view(), imprint.deep_view()));
    pool
}

/// Copies the picked strokes into a drawing of their own.
pub fn fragment_of(picks: &Vec<&Stroke>) -> (fragment: Drawing)
    ensures
        fragment.deep_view() == picks.deep_view(),
{
    let mut fragment: Vec<Stroke> = Vec::new();
    let mut i: usize = 0;
    while i < picks.len()
        invariant
            i <= picks.len(),
            fragment.len() == i,
            forall|j: int| 0 <= j < i ==> (#[trigger] fragment@[j]).deep_view() == picks@[j].deep_view(),
        decreases picks.len() - i,
    {
        fragment.push(picks[i].clone());
        i += 1;
    }
    assert(fragment.deep_view() =~= picks.deep_view());
    fragment
}

/// Chooses at most `n` strokes from the drawing and its imprint, at random,
/// and returns them as a drawing. Nothing comes of nothing.
pub fn random(drawing: &Option<Drawing>, imprint: &Option<Drawing>, n: usize) -> (fragment: Option<
    Drawing,
>)
    ensures
        is_fragment_of(fragment.deep_view(), drawing.deep_view(), imprint.deep_view(), n as nat),
{
    if drawing.is_none() && imprint.is_none() {
        return None;
    }
    let pool = pool_strokes(drawing, imprint);
    let picks = choose_multiple(&pool, n);
    let fragment = fragment_of(&picks);
    proof {
        let at = choose|at: Seq<int>| is_sample_by(picks@, pool@, at);
        assert(is_sample_by(fragment.deep_view(), pool.deep_view(), at));
    }
    Some(fragment)
}

} // verus!
