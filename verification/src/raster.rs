//! The scanline rasterizer, as mathematics: which depth a screen row shows,
//! which columns of it the road covers, and what drawing the row does to
//! the frame.
//!
//! The formulas are fixed point, on `i32` in two's complement (see
//! [`crate::fixed`]). A row ends a segment's scan where a divisor is zero,
//! where the row does not reach the segment's surface, or where it reaches
//! it outside the segment.
use crate::canvas::{
    clamp, hits, lemma_fill_hits, lemma_fill_within, lemma_take_left_consistent,
    lemma_take_right_consistent, within, Canvas, Ink, LineVisibility,
};
use crate::fixed::{quot, sqrt_floor, wrap};
use crate::painter::Palette;
use crate::projector::{curve_factor, slope_factor, Projection};
use crate::track::SideInclination;
use vstd::prelude::*;

verus! {

/// Where a screen row meets the surface of a segment.
pub struct RowHit {
    /// Depth from the camera, FP1.
    pub z: i32,
    /// Depth from the start of the segment, FP1.
    pub z_local: i32,
    /// Distance along the track from the start of the segment, FP1.
    pub t_local: i32,
}

/// The screen row `y`, counted from the middle row of a screen `h` high.
pub open spec fn view_row(h: i32, y: i32) -> i32 {
    wrap(y - quot(h as int, 2))
}

/// Screen distance of one world unit at depth one: `1 / near`, FP1.
pub open spec fn inverse_near(near: i32) -> i32 {
    wrap(quot(256, near as int))
}

/// Where row `y` meets a vertically straight stretch that starts in
/// state `s` and is `length` long.
///
/// `depth = z_offset + (z_offset * vy - y_offset * near) / divisor` with
/// `divisor = near * slope - vy`; the distance along the track is the depth
/// gained times `sqrt(1 + slope^2)`.
pub open spec fn flat_hit(near: i32, h: i32, y: i32, s: Projection, length: i32) -> Option<RowHit> {
    let vy = view_row(h, y);
    let div = wrap(wrap(near * s.y_slope) / 256 - vy);
    let z = wrap(
        s.z_offset + wrap(
            quot(wrap(wrap(s.z_offset * vy) - wrap(s.y_offset * near)) as int, div as int),
        ),
    );
    let z_local = wrap(z - s.z_offset);
    let t_local = wrap(z_local * slope_factor(s.y_slope)) / 256;
    if div == 0 || z < 0 || t_local < 0 || t_local >= length {
        None
    } else {
        Some(RowHit { z, z_local, t_local: t_local as i32 })
    }
}

/// The discriminant of the quadratic that a row solves on a curved stretch, FP2.
pub open spec fn curved_discriminant(near: i32, h: i32, y: i32, s: Projection, y_curve: i32) -> i32 {
    let vy = wrap(view_row(h, y) * inverse_near(near));
    let vym = wrap(vy - s.y_slope);
    wrap(
        wrap(vym * vym) + wrap(wrap(4 * wrap(wrap(s.z_offset * vy) / 256 - s.y_offset)) * y_curve),
    )
}

/// Where row `y` meets a vertically curved stretch that starts in state
/// `s` and is `length` long.
///
/// The depth is the smaller root of `curve * depth^2 - slope_term * depth +
/// const = 0`; the distance along the track is `sqrt(|curve|) * depth^2 / 4`.
pub open spec fn curved_hit(near: i32, h: i32, y: i32, s: Projection, y_curve: i32, length: i32)
    -> Option<RowHit> {
    let vy = wrap(view_row(h, y) * inverse_near(near));
    let vym = wrap(vy - s.y_slope);
    let disc = curved_discriminant(near, h, y, s, y_curve);
    let sqrt_disc = wrap(sqrt_floor(wrap(disc * 16) as int) * 64);
    let two_c = wrap(2 * y_curve);
    let z = wrap(quot(wrap(wrap(vym * 256) - sqrt_disc) as int, two_c as int));
    let z_tmp = z / 16;
    let t_local = wrap(curve_factor(y_curve) * (wrap(quot(wrap(z_tmp * z_tmp) as int, 4)) / 256));
    if disc < 0 || two_c == 0 || z < 0 || t_local < 0 || t_local >= length {
        None
    } else {
        Some(RowHit { z: wrap(z + s.z_offset), z_local: z, t_local })
    }
}

/// Where row `y` meets a stretch of vertical curvature `y_curve`.
pub open spec fn row_hit(near: i32, h: i32, y: i32, s: Projection, y_curve: i32, length: i32)
    -> Option<RowHit> {
    if y_curve == 0 {
        flat_hit(near, h, y, s, length)
    } else {
        curved_hit(near, h, y, s, y_curve, length)
    }
}

/// The columns of a row, laid over the road.
pub struct RowSpan {
    /// Lateral distance between neighbouring columns, FP2.
    pub tx_step: i32,
    /// Lateral coordinate of column 0, FP2.
    pub tx0: i32,
    /// First column of the road.
    pub left: i32,
    /// First column after the road.
    pub right: i32,
}

/// Lateral distance between neighbouring columns at the depth of `hit`: `depth / near`.
pub open spec fn lateral_step(near: i32, hit: RowHit) -> i32 {
    wrap(inverse_near(near) * hit.z)
}

/// Lateral coordinate of column 0 of a row `w` wide: half the row to the
/// left of the camera, moved by the offset, the curvature and the slope of
/// the road at the depth of `hit`.
pub open spec fn lateral_origin(near: i32, w: i32, s: Projection, x_curve: i32, hit: RowHit) -> i32 {
    let z_tmp = hit.z_local / 16;
    wrap(
        wrap(
            wrap(
                wrap(quot(wrap(lateral_step(near, hit) * wrap(-w)) as int, 2)) + wrap(
                    s.x_offset * 256,
                ),
            ) + wrap(wrap(x_curve * z_tmp) * z_tmp),
        ) + wrap(s.x_slope * hit.z_local),
    )
}

/// The columns that a road of half width `half_width` covers on the row
/// of `hit`; nothing where the columns are no distance apart.
pub open spec fn row_span(
    near: i32,
    w: i32,
    s: Projection,
    x_curve: i32,
    hit: RowHit,
    half_width: i32,
) -> Option<RowSpan> {
    let tx_step = lateral_step(near, hit);
    let tx0 = lateral_origin(near, w, s, x_curve, hit);
    if tx_step == 0 {
        None
    } else {
        Some(
            RowSpan {
                tx_step,
                tx0,
                left: wrap(1 - wrap(quot(wrap(wrap(1 + half_width) + tx0) as int, tx_step as int))),
                right: wrap(1 + wrap(quot(wrap(half_width - tx0) as int, tx_step as int))),
            },
        )
    }
}

/// An uphill shoulder on the left hides, on each row further up, one
/// column less than on the row below. From row `r` up, the free pixels left
/// of `cut` (one less per row) are taken, until nothing is left of the cut.
pub open spec fn wedge_left<C>(c: Canvas<C>, r: i32, cut: int, ink: Ink<C>) -> Canvas<C>
    decreases r + 1,
{
    if r < 0 || cut <= 0 {
        c
    } else {
        wedge_left(c.take_left(r, cut, ink), (r - 1) as i32, cut - 1, ink)
    }
}

/// The same on the right: from row `r` up, the free pixels at or right of
/// `cut` (one more per row) are taken, until the cut leaves the screen.
pub open spec fn wedge_right<C>(c: Canvas<C>, r: i32, cut: int, w: i32, ink: Ink<C>) -> Canvas<C>
    decreases r + 1,
{
    if r < 0 || cut >= w {
        c
    } else {
        wedge_right(c.take_right(r, cut, ink), (r - 1) as i32, cut + 1, w, ink)
    }
}

/// Whether the left shoulder of a row whose free pixels begin at `begin`
/// is drawn as ground. A downhill shoulder is, unless nothing left of it
/// is taken yet: then the sky shows there.
pub open spec fn grounds_left(style: SideInclination, begin: i32) -> bool {
    !(style is Downhill) || begin > 0
}

/// Whether the right shoulder of a row whose free pixels end at `end` is
/// drawn as ground.
pub open spec fn grounds_right(style: SideInclination, end: i32, w: i32) -> bool {
    !(style is Downhill) || end < w
}

/// The frame after the open row `y` has been drawn and closed, before any
/// wedge is taken out further up.
///
/// Of the row's free pixels, those left of the road become ground (see
/// [`grounds_left`]), those on the road get the road's colours, and those
/// right of it become ground (see [`grounds_right`]), in this order. The
/// row's record then says what is taken on it.
pub open spec fn close_row<C>(
    c: Canvas<C>,
    w: i32,
    y: i32,
    style: (SideInclination, SideInclination),
    span: RowSpan,
    t: i32,
    pal: Palette<C>,
) -> Canvas<C> {
    let line = c.rows[y as int];
    let road_begin = clamp(span.left as int, line.begin as int, line.end as int);
    let road_end = clamp(span.right as int, road_begin, line.end as int);
    let ground = Ink::Plain((pal.ground)(0, t));
    let road = Ink::Road { tint: pal.road, tx0: span.tx0, step: span.tx_step, t };
    let c1 = if grounds_left(style.0, line.begin) {
        c.fill(y, line.begin as int, road_begin, ground)
    } else {
        c
    };
    let c2 = c1.fill(y, road_begin, road_end, road);
    let c3 = if grounds_right(style.1, line.end, w) {
        c2.fill(y, road_end, line.end as int, ground)
    } else {
        c2
    };
    c3.put(
        y as int,
        LineVisibility {
            road: true,
            begin: if grounds_left(style.0, line.begin) {
                0
            } else {
                road_begin as i32
            },
            end: if grounds_right(style.1, line.end, w) {
                w
            } else {
                road_end as i32
            },
        },
    )
}

/// The frame after the road has been drawn on the open row `y`: the row is
/// drawn and closed (see [`close_row`]); then an uphill shoulder on the
/// left takes its wedge out of the rows further up, and then one on the right.
pub open spec fn line_step<C>(
    c: Canvas<C>,
    w: i32,
    y: i32,
    style: (SideInclination, SideInclination),
    span: RowSpan,
    t: i32,
    pal: Palette<C>,
) -> Canvas<C> {
    let ground = Ink::Plain((pal.ground)(0, t));
    let c1 = close_row(c, w, y, style, span, t, pal);
    let c2 = if style.0 is Uphill {
        wedge_left(c1, (y - 1) as i32, span.left - 1, ground)
    } else {
        c1
    };
    if style.1 is Uphill {
        wedge_right(c2, (y - 1) as i32, span.right + 1, w, ground)
    } else {
        c2
    }
}

/// One segment, as the scan sees it.
pub struct Stretch {
    /// Profile of the left and of the right shoulder.
    pub style: (SideInclination, SideInclination),
    /// Horizontal curvature, FP1.
    pub x_curve: i32,
    /// Vertical curvature, FP1.
    pub y_curve: i32,
    /// Length still ahead of the camera, FP1.
    pub length: i32,
    /// Distance from the start of the track to the start of the stretch, FP1.
    pub t_start: i32,
    /// State of the road at the start of the stretch.
    pub state: Projection,
}

/// What row `y` shows of a stretch: the distance along the track and the
/// columns of the road, or nothing where the row ends the scan.
pub open spec fn row_of(near: i32, w: i32, h: i32, y: i32, st: Stretch, half_width: i32) -> Option<
    (i32, RowSpan),
> {
    match row_hit(near, h, y, st.state, st.y_curve, st.length) {
        None => None,
        Some(hit) => match row_span(near, w, st.state, st.x_curve, hit, half_width) {
            None => None,
            Some(span) => Some((wrap(st.t_start + hit.t_local), span)),
        },
    }
}

/// The frame and the row cursor after a stretch has been scanned from row
/// `y` upward: row after row is drawn until one ends the scan or the top of
/// the screen is passed.
#[verifier::opaque]
pub open spec fn scan<C>(c: Canvas<C>, near: i32, w: i32, h: i32, y: i32, st: Stretch, pal: Palette<C>)
    -> (Canvas<C>, i32)
    decreases y + 1,
{
    if y < 0 || near == 0 {
        (c, y)
    } else {
        match row_of(near, w, h, y, st, pal.half_width) {
            None => (c, y),
            Some((t, span)) => scan(
                line_step(c, w, y, st.style, span, t, pal),
                near,
                w,
                h,
                (y - 1) as i32,
                st,
                pal,
            ),
        }
    }
}

/// The frame after the sky has been drawn on the rows from `y` down: on
/// each row, whatever its record leaves free.
pub open spec fn sky_from<C>(c: Canvas<C>, w: i32, h: i32, y: i32, pal: Palette<C>) -> Canvas<C>
    decreases h - y,
{
    if y >= h || y < 0 {
        c
    } else {
        let line = c.rows[y as int];
        let ink = Ink::Plain((pal.sky)(y));
        sky_from(
            if line.road {
                c.fill(y, 0, line.begin as int, ink).fill(y, line.end as int, w as int, ink)
            } else {
                c.fill(y, line.begin as int, line.end as int, ink)
            },
            w,
            h,
            (y + 1) as i32,
            pal,
        )
    }
}

/// Taking a wedge out on the left keeps the frame consistent and the open rows open.
pub proof fn lemma_wedge_left_consistent<C>(
    c: Canvas<C>,
    r: i32,
    cut: int,
    ink: Ink<C>,
    w: int,
    h: int,
    top: int,
)
    requires
        c.consistent(w, h),
        c.open_down_to(top),
        -1 <= r <= top,
        r < h,
        w <= i32::MAX,
    ensures
        wedge_left(c, r, cut, ink).consistent(w, h),
        wedge_left(c, r, cut, ink).open_down_to(top),
    decreases r + 1,
{
    if !(r < 0 || cut <= 0) {
        lemma_take_left_consistent(c, r, cut, ink, w, h);
        lemma_wedge_left_consistent(c.take_left(r, cut, ink), (r - 1) as i32, cut - 1, ink, w, h, top);
    }
}

/// Taking a wedge out on the right keeps the frame consistent and the open rows open.
pub proof fn lemma_wedge_right_consistent<C>(
    c: Canvas<C>,
    r: i32,
    cut: int,
    wi: i32,
    ink: Ink<C>,
    w: int,
    h: int,
    top: int,
)
    requires
        c.consistent(w, h),
        c.open_down_to(top),
        -1 <= r <= top,
        r < h,
        w <= i32::MAX,
    ensures
        wedge_right(c, r, cut, wi, ink).consistent(w, h),
        wedge_right(c, r, cut, wi, ink).open_down_to(top),
    decreases r + 1,
{
    if !(r < 0 || cut >= wi) {
        lemma_take_right_consistent(c, r, cut, ink, w, h);
        lemma_wedge_right_consistent(
            c.take_right(r, cut, ink),
            (r - 1) as i32,
            cut + 1,
            wi,
            ink,
            w,
            h,
            top,
        );
    }
}

/// Drawing and closing an open row keeps the frame consistent; the rows
/// further up stay open.
pub proof fn lemma_close_row_consistent<C>(
    c: Canvas<C>,
    w: i32,
    h: int,
    y: i32,
    style: (SideInclination, SideInclination),
    span: RowSpan,
    t: i32,
    pal: Palette<C>,
)
    requires
        c.consistent(w as int, h),
        c.open_down_to(y as int),
        0 <= y < h,
    ensures
        close_row(c, w, y, style, span, t, pal).consistent(w as int, h),
        close_row(c, w, y, style, span, t, pal).open_down_to(y - 1),
{
    let line = c.rows[y as int];
    assert(line.in_bounds(w as int));
    assert(!line.road);
    let road_begin = clamp(span.left as int, line.begin as int, line.end as int);
    let road_end = clamp(span.right as int, road_begin, line.end as int);
    let ground = Ink::Plain((pal.ground)(0, t));
    let road = Ink::Road { tint: pal.road, tx0: span.tx0, step: span.tx_step, t };
    let c1 = if grounds_left(style.0, line.begin) {
        c.fill(y, line.begin as int, road_begin, ground)
    } else {
        c
    };
    let c2 = c1.fill(y, road_begin, road_end, road);
    let c3 = if grounds_right(style.1, line.end, w) {
        c2.fill(y, road_end, line.end as int, ground)
    } else {
        c2
    };
    lemma_fill_hits(c, y, line.begin as int, road_begin, ground);
    lemma_fill_within(c, y, line.begin as int, road_begin, ground, w as int, h);
    lemma_fill_hits(c1, y, road_begin, road_end, road);
    lemma_fill_within(c1, y, road_begin, road_end, road, w as int, h);
    lemma_fill_hits(c2, y, road_end, line.end as int, ground);
    lemma_fill_within(c2, y, road_end, line.end as int, ground, w as int, h);
}

/// Drawing a row keeps the frame consistent; the rows further up stay open.
pub proof fn lemma_line_step_consistent<C>(
    c: Canvas<C>,
    w: i32,
    h: int,
    y: i32,
    style: (SideInclination, SideInclination),
    span: RowSpan,
    t: i32,
    pal: Palette<C>,
)
    requires
        c.consistent(w as int, h),
        c.open_down_to(y as int),
        0 <= y < h,
    ensures
        line_step(c, w, y, style, span, t, pal).consistent(w as int, h),
        line_step(c, w, y, style, span, t, pal).open_down_to(y - 1),
{
    let ground = Ink::Plain((pal.ground)(0, t));
    lemma_close_row_consistent(c, w, h, y, style, span, t, pal);
    let c1 = close_row(c, w, y, style, span, t, pal);
    lemma_wedge_left_consistent(c1, (y - 1) as i32, span.left - 1, ground, w as int, h, y - 1);
    let c2 = if style.0 is Uphill {
        wedge_left(c1, (y - 1) as i32, span.left - 1, ground)
    } else {
        c1
    };
    lemma_wedge_right_consistent(c2, (y - 1) as i32, span.right + 1, w, ground, w as int, h, y - 1);
}

/// Scanning a stretch keeps the frame consistent; the rows from the cursor
/// up stay open, and the cursor stays between -1 and where it started.
pub proof fn lemma_scan_consistent<C>(
    c: Canvas<C>,
    near: i32,
    w: i32,
    h: i32,
    y: i32,
    st: Stretch,
    pal: Palette<C>,
)
    requires
        c.consistent(w as int, h as int),
        c.open_down_to(y as int),
        -1 <= y < h,
    ensures
        scan(c, near, w, h, y, st, pal).0.consistent(w as int, h as int),
        scan(c, near, w, h, y, st, pal).0.open_down_to(scan(c, near, w, h, y, st, pal).1 as int),
        -1 <= scan(c, near, w, h, y, st, pal).1 <= y,
    decreases y + 1,
{
    reveal(scan);
    if !(y < 0 || near == 0) {
        match row_of(near, w, h, y, st, pal.half_width) {
            None => {},
            Some((t, span)) => {
                lemma_line_step_consistent(c, w, h as int, y, st.style, span, t, pal);
                lemma_scan_consistent(
                    line_step(c, w, y, st.style, span, t, pal),
                    near,
                    w,
                    h,
                    (y - 1) as i32,
                    st,
                    pal,
                );
            },
        }
    }
}

/// The sky pass completes a consistent frame: once it has drawn the rows
/// from `y` down, every pixel of those rows has been plotted exactly once,
/// and the rows above are as they were.
pub proof fn lemma_sky_from_completes<C>(c: Canvas<C>, w: i32, h: i32, y: i32, pal: Palette<C>)
    requires
        c.rows.len() == h,
        forall|r: int| 0 <= r < h ==> (#[trigger] c.rows[r]).in_bounds(w as int),
        within(c.plots, w as int, h as int),
        0 <= y <= h,
        forall|x: int, r: int|
            0 <= x < w && y <= r < h ==> #[trigger] hits(c.plots, x, r)
                == if c.rows[r].painted(x) {
                1nat
            } else {
                0nat
            },
    ensures
        within(sky_from(c, w, h, y, pal).plots, w as int, h as int),
        forall|x: int, r: int|
            0 <= x < w && y <= r < h ==> #[trigger] hits(
                sky_from(c, w, h, y, pal).plots,
                x,
                r,
            ) == 1,
        forall|x: int, r: int|
            0 <= x < w && 0 <= r < y ==> #[trigger] hits(
                sky_from(c, w, h, y, pal).plots,
                x,
                r,
            ) == hits(c.plots, x, r),
        sky_from(c, w, h, y, pal).rows == c.rows,
    decreases h - y,
{
    if y < h {
        let line = c.rows[y as int];
        assert(line.in_bounds(w as int));
        let ink = Ink::Plain((pal.sky)(y));
        let c1 = c.fill(y, 0, line.begin as int, ink);
        let c2 = c1.fill(y, line.end as int, w as int, ink);
        let c3 = c.fill(y, line.begin as int, line.end as int, ink);
        lemma_fill_hits(c, y, 0, line.begin as int, ink);
        lemma_fill_within(c, y, 0, line.begin as int, ink, w as int, h as int);
        lemma_fill_hits(c1, y, line.end as int, w as int, ink);
        lemma_fill_within(c1, y, line.end as int, w as int, ink, w as int, h as int);
        lemma_fill_hits(c, y, line.begin as int, line.end as int, ink);
        lemma_fill_within(c, y, line.begin as int, line.end as int, ink, w as int, h as int);
        let next = if line.road {
            c2
        } else {
            c3
        };
        lemma_sky_from_completes(next, w, h, (y + 1) as i32, pal);
    }
}

} // verus!
