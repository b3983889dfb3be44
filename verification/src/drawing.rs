//! Strokes and drawings.
//!
//! The engine never interprets geometry: a coordinate is carried as the pair of
//! IEEE-754 bit patterns of its `x` and `y` single-precision values.

use vstd::prelude::*;

verus! {

/// The points of one stroke, each as the bit patterns of `(x, y)`.
pub type Coordinates = Vec<(u32, u32)>;

/// One continuous line of a drawing.
#[derive(Debug)]
pub struct Stroke {
    pub coordinates: Coordinates,
    pub brush_size: usize,
    pub color: String,
}

/// A drawing is the list of its strokes, in the order they were made.
pub type Drawing = Vec<Stroke>;

/// Mathematical value of a [`Stroke`].
pub struct StrokeSpec {
    pub coordinates: Seq<(u32, u32)>,
    pub brush_size: usize,
    pub color: Seq<char>,
}

impl DeepView for Stroke {
    type V = StrokeSpec;

    open spec fn deep_view(&self) -> StrokeSpec {
        StrokeSpec {
            coordinates: self.coordinates@,
            brush_size: self.brush_size,
            color: self.color@,
        }
    }
}

impl Clone for Stroke {
    fn clone(&self) -> (r: Self)
        ensures
            r.deep_view() == self.deep_view(),
    {
        let mut coordinates: Vec<(u32, u32)> = Vec::new();
        let mut i: usize = 0;
        while i < self.coordinates.len()
            invariant
                i <= self.coordinates.len(),
                coordinates@ == self.coordinates@.take(i as int),
            decreases self.coordinates.len() - i,
        {
            coordinates.push(self.coordinates[i]);
            i += 1;
        }
        assert(coordinates@ == self.coordinates@);
        Stroke { coordinates, brush_size: self.brush_size, color: self.color.clone() }
    }
}

/// Copies a drawing stroke by stroke.
pub fn clone_drawing(drawing: &Drawing) -> (r: Drawing)
    ensures
        r.deep_view() == drawing.deep_view(),
{
    let mut out: Vec<Stroke> = Vec::new();
    let mut i: usize = 0;
    while i < drawing.len()
        invariant
            i <= drawing.len(),
            out.len() == i,
            forall|j: int| 0 <= j < i ==> out@[j].deep_view() == drawing@[j].deep_view(),
        decreases drawing.len() - i,
    {
        out.push(drawing[i].clone());
        i += 1;
    }
    assert(out.deep_view() =~= drawing.deep_view());
    out
}

/// Copies an optional drawing.
pub fn clone_optional_drawing(drawing: &Option<Drawing>) -> (r: Option<Drawing>)
    ensures
        r.deep_view() == drawing.deep_view(),
{
    match drawing {
        Some(d) => Some(clone_drawing(d)),
        None => None,
    }
}

} // verus!
