//! One whole frame, as mathematics: the road, stretch after stretch from
//! the bottom row up, and then the sky.
use crate::canvas::{
    lemma_blank_consistent, lemma_each_pixel_once_counts, paints_each_pixel_once, Canvas,
};
use crate::fixed::wrap;
use crate::painter::{Palette, Plot};
use crate::projector::{integrate, Projection};
use crate::raster::{lemma_scan_consistent, lemma_sky_from_completes, scan, sky_from, Stretch};
use crate::renderer::Position;
use vstd::prelude::*;

verus! {

/// Segment `i` of the track as the scan sees it from `pos`: of the segment
/// that the camera is in, only what lies ahead.
pub open spec fn stretch_at(pos: Position, i: int, s: Projection, t_start: i32) -> Stretch {
    Stretch {
        style: pos.track[i].side_style,
        x_curve: pos.track[i].x_curve,
        y_curve: pos.track[i].y_curve,
        length: (pos.track[i].length - if i == pos.segment {
            pos.distance - pos.segment_start
        } else {
            0
        }) as i32,
        t_start,
        state: s,
    }
}

/// The frame after the road has been drawn from segment `i` on.
///
/// Each segment is scanned from the row cursor `y` upward, in the state `s`
/// that the road has at its start; then the state is carried to its end for
/// the next one. The road ends with the track, or where a divisor is zero.
#[verifier::opaque]
pub open spec fn road_from<C>(
    c: Canvas<C>,
    pos: Position,
    w: i32,
    h: i32,
    i: int,
    s: Projection,
    t_start: i32,
    y: i32,
    pal: Palette<C>,
) -> Canvas<C>
    decreases pos.track.len() - i,
{
    if i < 0 || i >= pos.track.len() {
        c
    } else {
        let st = stretch_at(pos, i, s, t_start);
        let scanned = scan(c, pos.near, w, h, y, st, pal);
        match integrate(pos.track[i], st.length as int, s) {
            None => scanned.0,
            Some(next) => road_from(
                scanned.0,
                pos,
                w,
                h,
                i + 1,
                next,
                wrap(t_start + st.length),
                scanned.1,
                pal,
            ),
        }
    }
}

/// The state of the road at the camera.
pub open spec fn camera(x_offset: i32, y_offset: i32) -> Projection {
    Projection { x_offset, y_offset, z_offset: 0, x_slope: 0, y_slope: 0 }
}

/// The frame after the road has been drawn, before the sky.
pub open spec fn road<C>(
    pos: Position,
    w: i32,
    h: i32,
    x_offset: i32,
    y_offset: i32,
    pal: Palette<C>,
) -> Canvas<C> {
    road_from(
        Canvas::blank(w, h as int),
        pos,
        w,
        h,
        pos.segment,
        camera(x_offset, y_offset),
        pos.distance as i32,
        (h - 1) as i32,
        pal,
    )
}

/// The pixels of one frame, in the order in which they are plotted: the
/// view from `pos`, for a camera at lateral offset `x_offset` and height
/// `y_offset`, on a screen of `w` by `h` pixels. A screen without pixels
/// gets none.
pub open spec fn frame<C>(
    pos: Position,
    w: i32,
    h: i32,
    x_offset: i32,
    y_offset: i32,
    pal: Palette<C>,
) -> Seq<Plot<C>> {
    if w <= 0 || h <= 0 {
        Seq::empty()
    } else {
        sky_from(road(pos, w, h, x_offset, y_offset, pal), w, h, 0, pal).plots
    }
}

/// What [`road_from`] does with one segment.
pub proof fn lemma_road_from_step<C>(
    c: Canvas<C>,
    pos: Position,
    w: i32,
    h: i32,
    i: int,
    s: Projection,
    t_start: i32,
    y: i32,
    pal: Palette<C>,
)
    ensures
        i < 0 || i >= pos.track.len() ==> road_from(c, pos, w, h, i, s, t_start, y, pal) == c,
        0 <= i < pos.track.len() ==> road_from(c, pos, w, h, i, s, t_start, y, pal) == ({
            let st = stretch_at(pos, i, s, t_start);
            let scanned = scan(c, pos.near, w, h, y, st, pal);
            match integrate(pos.track[i], st.length as int, s) {
                None => scanned.0,
                Some(next) => road_from(
                    scanned.0,
                    pos,
                    w,
                    h,
                    i + 1,
                    next,
                    wrap(t_start + st.length),
                    scanned.1,
                    pal,
                ),
            }
        }),
{
    reveal(road_from);
}

/// Drawing the road from a segment on keeps the frame consistent.
pub proof fn lemma_road_from_consistent<C>(
    c: Canvas<C>,
    pos: Position,
    w: i32,
    h: i32,
    i: int,
    s: Projection,
    t_start: i32,
    y: i32,
    pal: Palette<C>,
)
    requires
        c.consistent(w as int, h as int),
        c.open_down_to(y as int),
        -1 <= y < h,
    ensures
        road_from(c, pos, w, h, i, s, t_start, y, pal).consistent(w as int, h as int),
    decreases pos.track.len() - i,
{
    lemma_road_from_step(c, pos, w, h, i, s, t_start, y, pal);
    if !(i < 0 || i >= pos.track.len()) {
        let st = stretch_at(pos, i, s, t_start);
        lemma_scan_consistent(c, pos.near, w, h, y, st, pal);
        let scanned = scan(c, pos.near, w, h, y, st, pal);
        match integrate(pos.track[i], st.length as int, s) {
            None => {},
            Some(next) => {
                lemma_road_from_consistent(
                    scanned.0,
                    pos,
                    w,
                    h,
                    i + 1,
                    next,
                    wrap(t_start + st.length),
                    scanned.1,
                    pal,
                );
            },
        }
    }
}

/// One frame plots every pixel of the screen exactly once, and nothing
/// outside the screen: what the road and its shoulders leave free, the sky
/// takes, with no gap and no overlap. So a frame has as many plots as the
/// screen has pixels.
pub proof fn lemma_frame_paints_each_pixel_once<C>(
    pos: Position,
    w: i32,
    h: i32,
    x_offset: i32,
    y_offset: i32,
    pal: Palette<C>,
)
    ensures
        paints_each_pixel_once(frame(pos, w, h, x_offset, y_offset, pal), w as int, h as int),
        frame(pos, w, h, x_offset, y_offset, pal).len() == if w > 0 && h > 0 {
            w * h
        } else {
            0
        },
{
    if w > 0 && h > 0 {
        lemma_frame_covers(pos, w, h, x_offset, y_offset, pal);
        lemma_each_pixel_once_counts(
            frame(pos, w, h, x_offset, y_offset, pal),
            w as int,
            h as int,
        );
    }
}

/// The frame on a screen that has pixels covers the screen exactly once.
proof fn lemma_frame_covers<C>(
    pos: Position,
    w: i32,
    h: i32,
    x_offset: i32,
    y_offset: i32,
    pal: Palette<C>,
)
    requires
        0 < w,
        0 < h,
    ensures
        paints_each_pixel_once(frame(pos, w, h, x_offset, y_offset, pal), w as int, h as int),
{
    lemma_road_consistent(pos, w, h, x_offset, y_offset, pal);
    lemma_sky_from_completes(road(pos, w, h, x_offset, y_offset, pal), w, h, 0, pal);
}

/// Once the road has been drawn, the visibility records and the plotted
/// pixels agree: every record lies on its row, and what a record says is
/// taken has been plotted once, and nothing else has.
pub proof fn lemma_road_consistent<C>(
    pos: Position,
    w: i32,
    h: i32,
    x_offset: i32,
    y_offset: i32,
    pal: Palette<C>,
)
    requires
        0 < w,
        0 < h,
    ensures
        road(pos, w, h, x_offset, y_offset, pal).consistent(w as int, h as int),
{
    lemma_blank_consistent::<C>(w, h as int);
    lemma_road_from_consistent(
        Canvas::blank(w, h as int),
        pos,
        w,
        h,
        pos.segment,
        camera(x_offset, y_offset),
        pos.distance as i32,
        (h - 1) as i32,
        pal,
    );
}

/// Moving on by nothing changes neither the position nor the frame that
/// is drawn from it.
pub proof fn lemma_advance_zero_keeps_frame<C>(
    pos: Position,
    w: i32,
    h: i32,
    x_offset: i32,
    y_offset: i32,
    pal: Palette<C>,
)
    requires
        pos.well_formed(),
    ensures
        pos.advanced(0) == pos,
        frame(pos.advanced(0), w, h, x_offset, y_offset, pal) == frame(
            pos,
            w,
            h,
            x_offset,
            y_offset,
            pal,
        ),
{
}

/// Past the end of the track there is no road: the frame is the sky
/// alone, drawn over a blank canvas.
pub proof fn lemma_past_the_end_is_sky<C>(
    pos: Position,
    w: i32,
    h: i32,
    x_offset: i32,
    y_offset: i32,
    pal: Palette<C>,
)
    requires
        pos.segment >= pos.track.len(),
        0 < w,
        0 < h,
    ensures
        frame(pos, w, h, x_offset, y_offset, pal) == sky_from(
            Canvas::blank(w, h as int),
            w,
            h,
            0,
            pal,
        ).plots,
{
    lemma_road_from_step(
        Canvas::<C>::blank(w, h as int),
        pos,
        w,
        h,
        pos.segment,
        camera(x_offset, y_offset),
        pos.distance as i32,
        (h - 1) as i32,
        pal,
    );
}

} // verus!
