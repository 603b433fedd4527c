//! The painting capability the renderer draws through.
use vstd::prelude::*;

verus! {

/// One plotted pixel.
pub struct Plot<C> {
    pub x: i32,
    pub y: i32,
    pub color: C,
}

/// The colours and the road width that a painter answers with.
pub struct Palette<C> {
    /// Colour of the sky on a row.
    pub sky: spec_fn(i32) -> C,
    /// Colour of the road at a lateral coordinate (FP2) and a distance from the start of the track.
    pub road: spec_fn(i32, i32) -> C,
    /// Colour of the ground beside the road, by the same coordinates.
    pub ground: spec_fn(i32, i32) -> C,
    /// Half the width of the road, at the scale of the lateral coordinates (FP2).
    pub half_width: i32,
}

/// What the renderer needs from a pixel surface.
///
/// An implementation plots single pixels and answers colour queries. The
/// renderer relies on two things, which an implementation has to provide:
/// `draw` plots exactly the pixel it is given and changes no answer, and the
/// four queries are pure, so that asking twice gives the same colour.
///
/// The two specification functions model this. An implementation that is
/// verified overrides them; their defaults serve implementations that are not.
pub trait Painter {
    type ColorType;

    /// Every pixel plotted so far, oldest first.
    open spec fn plots(&self) -> Seq<Plot<Self::ColorType>> {
        Seq::empty()
    }

    /// What the queries answer.
    open spec fn palette(&self) -> Palette<Self::ColorType> {
        arbitrary()
    }

    /// Draws a single pixel of the given color.
    fn draw(&mut self, x: i32, y: i32, color: &Self::ColorType)
        ensures
            final(self).plots() == old(self).plots().push(Plot { x, y, color: *color }),
            final(self).palette() == old(self).palette(),
    ;

    /// Colour of the sky on row `y`.
    fn sky_color(&self, y: i32) -> (c: Self::ColorType)
        ensures
            c == (self.palette().sky)(y),
    ;

    /// Colour of the road; `tx` is the lateral coordinate in FP2, `t` the
    /// distance from the start of the track.
    fn road_color(&self, tx: i32, t: i32) -> (c: Self::ColorType)
        ensures
            c == (self.palette().road)(tx, t),
    ;

    /// Colour of the ground beside the road, by the same coordinates.
    fn ground_color(&self, tx: i32, t: i32) -> (c: Self::ColorType)
        ensures
            c == (self.palette().ground)(tx, t),
    ;

    /// Half the width of the road in FP2.
    fn road_width(&self) -> (width: i32)
        ensures
            width == self.palette().half_width,
    ;
}

} // verus!
