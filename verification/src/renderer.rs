//! The renderer: position along the track, and one frame per call.
use crate::brush::{carve_left, carve_right, clamp_to, on_canvas, paint_road, paint_run};
use crate::canvas::{open_row, paints_each_pixel_once, Canvas, Ink, LineVisibility};
use crate::fixed::{down, down_half, half, isqrt, up, up_half, wadd, wdiv, wmul, wrap, wsub};
use crate::frame::{
    frame, lemma_frame_paints_each_pixel_once, lemma_road_from_step, road, road_from, stretch_at,
};
use crate::painter::{Painter, Plot};
use crate::projector::{
    curve_factor, integrate, screen_pos, slope_factor, walk, Projection, ScreenPos,
};
use crate::raster::{
    close_row, inverse_near, line_step, row_span, scan, sky_from, wedge_left, RowHit, Stretch,
};
use crate::track::{
    lemma_locate_bounds, lemma_locate_from, lemma_locate_skip, lemma_prefix_monotonic, locate,
    locate_from, prefix_length, segment_end, valid_track, Segment, SideInclination,
};
use vstd::prelude::*;

verus! {

/// Where a renderer stands on its track.
pub struct Position {
    /// The segments of the track, in order.
    pub track: Seq<Segment>,
    /// The near plane.
    pub near: i32,
    /// Distance travelled from the start of the track.
    pub distance: int,
    /// Index of the segment that the distance falls in.
    pub segment: int,
    /// Distance from the start of the track to the start of that segment.
    pub segment_start: int,
}

/// The position at distance `t` on `track`.
pub open spec fn position_at(track: Seq<Segment>, near: i32, t: int) -> Position {
    Position {
        track,
        near,
        distance: t,
        segment: locate(track, t),
        segment_start: prefix_length(track, locate(track, t)),
    }
}

impl Position {
    /// The track is valid, the distance is not negative, and the segment is
    /// the one that the distance falls in. The segment's start, the sum of
    /// the lengths before it, then is not negative and not beyond the
    /// distance.
    pub open spec fn well_formed(self) -> bool {
        &&& valid_track(self.track)
        &&& 0 <= self.distance <= i32::MAX
        &&& self == position_at(self.track, self.near, self.distance)
        &&& 0 <= self.segment <= self.track.len()
        &&& 0 <= self.segment_start <= self.distance
    }

    /// The position after moving `step` further.
    pub open spec fn advanced(self, step: int) -> Position {
        position_at(self.track, self.near, self.distance + step)
    }
}

/// Moving on by `a` and then by `b` leads to the same position as moving
/// on by `a + b` at once, and all three positions are well formed if the
/// first one is and the distance stays in range.
pub proof fn lemma_advance_composes(pos: Position, a: int, b: int)
    requires
        0 <= a,
        0 <= b,
    ensures
        pos.advanced(a).advanced(b) == pos.advanced(a + b),
        pos.well_formed() && pos.distance + a + b <= i32::MAX ==> pos.advanced(a).well_formed()
            && pos.advanced(a + b).well_formed(),
{
    if pos.well_formed() && pos.distance + a + b <= i32::MAX {
        lemma_locate_bounds(pos.track, pos.distance + a);
        lemma_locate_bounds(pos.track, pos.distance + a + b);
    }
}

/// Moving on by nothing leaves a well-formed position as it is.
pub proof fn lemma_advance_zero(pos: Position)
    requires
        pos.well_formed(),
    ensures
        pos.advanced(0) == pos,
{
}

/// A well-formed position lies in its segment: at or after the start of
/// the segment, which is never negative, and before its end. Past the end
/// of the track the segment index is the number of segments.
pub proof fn lemma_position_bounds(pos: Position)
    requires
        pos.well_formed(),
    ensures
        0 <= pos.segment <= pos.track.len(),
        0 <= pos.segment_start <= pos.distance,
        pos.segment_start == prefix_length(pos.track, pos.segment),
        pos.segment < pos.track.len() ==> pos.distance < pos.segment_start
            + pos.track[pos.segment].length,
{
    lemma_locate_bounds(pos.track, pos.distance);
}

/// Draws the view from a position on a track. The position moves by
/// [`RoadRenderer::advance`] and [`RoadRenderer::set`];
/// [`RoadRenderer::render`] draws a frame from where it stands.
pub struct RoadRenderer<'a> {
    /// The road is built out of segments with constant curvature and style.
    segments: &'a [Segment],
    /// Index of the current segment.
    cur_segment: usize,
    /// Near plane, practically just controls field of view.
    near: i32,
    /// Distance from the start of the road.
    cur_t: i32,
    /// Distance of the current segment from the start of the road.
    base_t: i32,
}

impl<'a> View for RoadRenderer<'a> {
    type V = Position;

    closed spec fn view(&self) -> Position {
        Position {
            track: self.segments@,
            near: self.near,
            distance: self.cur_t as int,
            segment: self.cur_segment as int,
            segment_start: self.base_t as int,
        }
    }
}

impl<'a> RoadRenderer<'a> {
    /// The renderer's position is well formed.
    pub open spec fn wf(&self) -> bool {
        self@.well_formed()
    }

    /// A renderer at the start of `segments`, with the near plane `near`.
    pub fn new(segments: &'a [Segment], near: i32) -> (r: Self)
        requires
            valid_track(segments@),
        ensures
            r.wf(),
            r@ == position_at(segments@, near, 0),
    {
        let mut r = Self { segments, cur_segment: 0, near, cur_t: 0, base_t: 0 };
        r.skip_exhausted();
        r
    }

    /// Distance travelled from the start of the track.
    pub fn distance(&self) -> (t: i32)
        ensures
            t == self@.distance,
    {
        self.cur_t
    }

    /// Index of the current segment; the number of segments past the end
    /// of the track.
    pub fn segment(&self) -> (i: usize)
        ensures
            i == self@.segment,
    {
        self.cur_segment
    }

    /// Distance from the start of the track to the start of the current segment.
    pub fn segment_start(&self) -> (t: i32)
        ensures
            t == self@.segment_start,
    {
        self.base_t
    }

    /// The near plane.
    pub fn near(&self) -> (near: i32)
        ensures
            near == self@.near,
    {
        self.near
    }

    /// Moves on while the current segment ends at or before the current distance.
    fn skip_exhausted(&mut self)
        requires
            valid_track(old(self).segments@),
            0 <= old(self).cur_t,
            old(self).cur_segment <= old(self).segments@.len(),
            old(self).base_t == prefix_length(
                old(self).segments@,
                old(self).cur_segment as int,
            ),
            old(self).base_t <= old(self).cur_t,
            locate_from(old(self).segments@, old(self).cur_t as int, old(self).cur_segment as int)
                == locate(old(self).segments@, old(self).cur_t as int),
        ensures
            final(self).wf(),
            final(self)@ == position_at(
                old(self).segments@,
                old(self).near,
                old(self).cur_t as int,
            ),
    {
        proof {
            lemma_prefix_monotonic(self.segments@, 0, self.cur_segment as int);
        }
        while self.cur_segment < self.segments.len() && self.cur_t - self.base_t
            >= self.segments[self.cur_segment].length
            invariant
                self.segments@ == old(self).segments@,
                self.near == old(self).near,
                self.cur_t == old(self).cur_t,
                valid_track(self.segments@),
                self.cur_segment <= self.segments@.len(),
                self.base_t == prefix_length(self.segments@, self.cur_segment as int),
                0 <= self.base_t <= self.cur_t,
                locate_from(self.segments@, self.cur_t as int, self.cur_segment as int) == locate(
                    self.segments@,
                    self.cur_t as int,
                ),
            decreases self.segments@.len() - self.cur_segment,
        {
            proof {
                lemma_prefix_monotonic(self.segments@, 0, self.cur_segment as int + 1);
            }
            self.base_t += self.segments[self.cur_segment].length;
            self.cur_segment += 1;
        }
        proof {
            lemma_prefix_monotonic(self.segments@, 0, self.cur_segment as int);
        }
    }

    /// Moves `step` further along the track: the distance grows by `step`,
    /// and the current segment becomes the one that the new distance falls
    /// in. Past the end of the track only the distance grows.
    ///
    /// A step back is taken too, as long as it stays in the current segment.
    pub fn advance(&mut self, step: i32)
        requires
            old(self).wf(),
            old(self)@.segment_start <= old(self)@.distance + step <= i32::MAX,
        ensures
            final(self).wf(),
            final(self)@ == old(self)@.advanced(step as int),
            step == 0 ==> final(self)@ == old(self)@,
    {
        proof {
            let track = self.segments@;
            let t = self.cur_t + step;
            lemma_locate_from(track, self.cur_t as int, 0);
            assert forall|j: int| 0 <= j < self.cur_segment implies #[trigger] segment_end(
                track,
                j,
            ) <= t by {
                lemma_prefix_monotonic(track, j + 1, self.cur_segment as int);
            }
            lemma_locate_skip(track, t, self.cur_segment as int);
        }
        self.cur_t += step;
        self.skip_exhausted();
    }

    /// Goes to distance `t` from the start of the track, as if by
    /// advancing `t` from there.
    pub fn set(&mut self, t: i32)
        requires
            old(self).wf(),
            0 <= t,
        ensures
            final(self).wf(),
            final(self)@ == position_at(old(self)@.track, old(self)@.near, t as int),
    {
        self.cur_t = t;
        self.base_t = 0;
        self.cur_segment = 0;
        self.skip_exhausted();
    }

    /// Carries `state` over `length` of segment `index`. Where a divisor is
    /// zero there is no next state: `state` stays, and the answer is `false`.
    fn update_state_at_segment_length(&self, index: usize, length: i32, state: &mut Projection) -> (ok:
        bool)
        requires
            index < self.segments@.len(),
        ensures
            ok == integrate(self.segments@[index as int], length as int, *old(state)).is_some(),
            ok ==> *final(state) == integrate(
                self.segments@[index as int],
                length as int,
                *old(state),
            ).unwrap(),
            !ok ==> *final(state) == *old(state),
    {
        proof {
            reveal(integrate);
        }
        let y_curve: i32 = self.segments[index].y_curve;
        let x_curve: i32 = self.segments[index].x_curve;
        let z: i32;
        let mut y_offset: i32 = state.y_offset;  // FP1
        let mut y_slope: i32 = state.y_slope;  // FP1
        let mut x_offset: i32 = state.x_offset;  // FP1
        let mut x_slope: i32 = state.x_slope;  // FP1

        if y_curve == 0 {
            // Flat plane as far as Y axis is concerned
            let t_factor: i32 = isqrt(wadd(65536, wmul(y_slope, y_slope)));  // FP1
            if t_factor == 0 {
                return false;
            }
            z = wdiv(up(length), t_factor);  // FP1
            y_offset = wadd(y_offset, down(wmul(y_slope, z)));
        } else {
            let abs_y_curve: i32 = if y_curve < 0 {
                wsub(0, y_curve)
            } else {
                y_curve
            };
            let tsqrtcurve: i32 = isqrt(up(abs_y_curve));  // FP1
            if tsqrtcurve == 0 {
                return false;
            }
            let z2: i32 = wdiv(wmul(4, length), tsqrtcurve);
            z = up_half(isqrt(up(z2)));  // FP1
            y_offset = wadd(y_offset, wadd(wmul(y_curve, z2), down(wmul(y_slope, z))));
            y_slope = wadd(y_slope, down(wmul(wmul(y_curve, z), 2)));
        }

        if x_curve == 0 {
            // X-axis is linear.
            x_offset = wadd(x_offset, down(wmul(x_slope, z)));
        } else {
            x_offset = wadd(
                x_offset,
                wadd(down(wmul(down(wmul(x_curve, z)), z)), down(wmul(x_slope, z))),
            );
            x_slope = wadd(x_slope, down(wmul(wmul(2, x_curve), z)));
        }
        *state = Projection {
            x_offset,
            y_offset,
            z_offset: wadd(state.z_offset, z),
            x_slope,
            y_slope,
        };
        true
    }

    /// Screen position of the point `point_t_offset` further along the
    /// track, at lateral offset `point_x_offset` and height
    /// `point_y_offset`, on a screen of `size.0` by `size.1` pixels, for a
    /// camera at `camera_x_offset` and `camera_y_offset`.
    ///
    /// `x_px` and `y_px` get the pixel coordinates; `inv_z` gets 1/z in FP3,
    /// negative behind the camera.
    pub fn get_screen_pos(
        &self,
        size: (i32, i32),
        camera_x_offset: i32,
        camera_y_offset: i32,
        point_t_offset: i32,
        point_x_offset: i32,
        point_y_offset: i32,
        x_px: &mut i32,
        y_px: &mut i32,
        inv_z: &mut i32,
    )
        requires
            self.wf(),
        ensures
            (ScreenPos { x_px: *final(x_px), y_px: *final(y_px), inv_z: *final(inv_z) })
                == screen_pos(
                self@,
                size.0,
                size.1,
                camera_x_offset,
                camera_y_offset,
                point_t_offset,
                point_x_offset,
                point_y_offset,
            ),
    {
        let ghost start = Projection {
            x_offset: camera_x_offset,
            y_offset: camera_y_offset,
            z_offset: 0,
            x_slope: 0,
            y_slope: 0,
        };
        let mut state = Projection {
            x_offset: camera_x_offset,
            y_offset: camera_y_offset,
            z_offset: 0,
            x_slope: 0,
            y_slope: 0,
        };
        let mut t_left: i32 = point_t_offset;
        let mut render_segment: usize = self.cur_segment;
        proof {
            lemma_locate_bounds(self.segments@, self.cur_t as int);
        }
        let mut used: i32 = self.cur_t - self.base_t;

        while render_segment < self.segments.len()
            invariant_except_break
                walk(self.segments@, render_segment as int, used as int, t_left as int, state)
                    == walk(
                    self.segments@,
                    self.cur_segment as int,
                    self.cur_t - self.base_t,
                    point_t_offset as int,
                    start,
                ),
            invariant
                valid_track(self.segments@),
                render_segment <= self.segments@.len(),
                0 <= used,
                render_segment < self.segments@.len() ==> used
                    <= self.segments@[render_segment as int].length,
            ensures
                state == walk(
                    self.segments@,
                    self.cur_segment as int,
                    self.cur_t - self.base_t,
                    point_t_offset as int,
                    start,
                ),
            decreases self.segments@.len() - render_segment,
        {
            let length_left: i32 = self.segments[render_segment].length - used;
            let length: i32 = if t_left < length_left {
                t_left
            } else {
                length_left
            };
            if !self.update_state_at_segment_length(render_segment, length, &mut state) {
                break ;
            }
            t_left = t_left - length;
            if t_left == 0 {
                break ;
            }
            render_segment = render_segment + 1;
            used = 0;
        }

        // Prevent division by zero.
        let z_offset: i32 = if state.z_offset == 0 {
            1
        } else {
            state.z_offset
        };

        *inv_z = wdiv(16777216, z_offset);
        *x_px = wadd(half(size.0), wdiv(wmul(self.near, wsub(point_x_offset, state.x_offset)), z_offset));
        *y_px = wadd(half(size.1), wdiv(wmul(self.near, wsub(state.y_offset, point_y_offset)), z_offset));
    }

    /// Draws the sky: on every row, top row first, whatever the row's
    /// record leaves free.
    fn render_sky<P: Painter>(
        &self,
        painter: &mut P,
        size: (i32, i32),
        horizon: &Vec<LineVisibility>,
        Ghost(base): Ghost<Seq<Plot<P::ColorType>>>,
        Ghost(c): Ghost<Canvas<P::ColorType>>,
    )
        requires
            on_canvas(old(painter), horizon, base, c),
            0 <= size.1 == horizon.len(),
        ensures
            final(painter).plots() == base + sky_from(
                c,
                size.0,
                size.1,
                0,
                old(painter).palette(),
            ).plots,
            final(painter).palette() == old(painter).palette(),
    {
        let w: i32 = size.0;
        let h: i32 = size.1;
        let ghost pal = painter.palette();
        let ghost mut now = c;
        let mut y: i32 = 0;
        while y < h
            invariant
                0 <= y <= h,
                h == horizon.len(),
                now.rows == horizon@,
                painter.plots() == base + now.plots,
                painter.palette() == pal,
                sky_from(now, w, h, y, pal) == sky_from(c, w, h, 0, pal),
            decreases h - y,
        {
            let color = painter.sky_color(y);
            let line: LineVisibility = horizon[y as usize];
            if line.road {
                paint_run(painter, y, 0, line.begin, &color, Ghost(base), Ghost(now));
                proof {
                    now = now.fill(y, 0, line.begin as int, Ink::Plain(color));
                }
                paint_run(painter, y, line.end, w, &color, Ghost(base), Ghost(now));
                proof {
                    now = now.fill(y, line.end as int, w as int, Ink::Plain(color));
                }
            } else {
                paint_run(painter, y, line.begin, line.end, &color, Ghost(base), Ghost(now));
                proof {
                    now = now.fill(y, line.begin as int, line.end as int, Ink::Plain(color));
                }
            }
            y = y + 1;
        }
    }

    /// Draws the road on row `y`, which is still open, at the place `hit`
    /// where the row meets the stretch `st`: first the row itself, from
    /// left to right, then the wedges that uphill shoulders take out of the
    /// rows further up. `base_tx` is `1 / near`.
    ///
    /// Where the row's columns are no distance apart there is nothing to
    /// draw: the frame stays, and the answer is `false`.
    fn render_road_line<P: Painter>(
        &self,
        painter: &mut P,
        size: (i32, i32),
        st: &Stretch,
        base_tx: i32,
        y: i32,
        hit: RowHit,
        horizon: &mut Vec<LineVisibility>,
        Ghost(base): Ghost<Seq<Plot<P::ColorType>>>,
        Ghost(c): Ghost<Canvas<P::ColorType>>,
    ) -> (ok: bool)
        requires
            on_canvas(old(painter), old(horizon), base, c),
            0 <= y < old(horizon).len(),
            self.near != 0,
            base_tx == inverse_near(self.near),
        ensures
            final(painter).palette() == old(painter).palette(),
            final(horizon).len() == old(horizon).len(),
            ok == row_span(
                self.near,
                size.0,
                st.state,
                st.x_curve,
                hit,
                old(painter).palette().half_width,
            ).is_some(),
            ok ==> on_canvas(
                final(painter),
                final(horizon),
                base,
                line_step(
                    c,
                    size.0,
                    y,
                    st.style,
                    row_span(
                        self.near,
                        size.0,
                        st.state,
                        st.x_curve,
                        hit,
                        old(painter).palette().half_width,
                    ).unwrap(),
                    wrap(st.t_start + hit.t_local),
                    old(painter).palette(),
                ),
            ),
            !ok ==> on_canvas(final(painter), final(horizon), base, c),
    {
        let w: i32 = size.0;
        let tx_step: i32 = wmul(base_tx, hit.z);  // FP2
        let z_tmp: i32 = down_half(hit.z_local);  // FP0.5
        let tx0: i32 = wadd(
            wadd(
                wadd(wdiv(wmul(tx_step, wsub(0, w)), 2), up(st.state.x_offset)),
                wmul(wmul(st.x_curve, z_tmp), z_tmp),
            ),
            wmul(st.state.x_slope, hit.z_local),
        );  // FP2
        if tx_step == 0 {
            return false;
        }
        let road_width: i32 = painter.road_width();
        let road_left: i32 = wsub(1, wdiv(wadd(wadd(1, road_width), tx0), tx_step));
        let road_right: i32 = wadd(1, wdiv(wsub(road_width, tx0), tx_step));
        let t_global: i32 = wadd(st.t_start, hit.t_local);

        let line: LineVisibility = horizon[y as usize];
        let road_begin: i32 = clamp_to(road_left as i64, line.begin, line.end);
        let road_end: i32 = clamp_to(road_right as i64, road_begin, line.end);
        let ground_left: bool = match st.style.0 {
            SideInclination::Downhill => line.begin > 0,
            _ => true,
        };
        let ground_right: bool = match st.style.1 {
            SideInclination::Downhill => line.end < w,
            _ => true,
        };
        let side_color = painter.ground_color(0, t_global);
        let ghost pal = painter.palette();
        let ghost mut now = c;

        // Left side of road
        if ground_left {
            paint_run(painter, y, line.begin, road_begin, &side_color, Ghost(base), Ghost(now));
            proof {
                now = now.fill(y, line.begin as int, road_begin as int, Ink::Plain(side_color));
            }
        }
        // Center part of road, could be fully hidden in which case
        // road_begin >= road_end.
        paint_road(painter, y, road_begin, road_end, tx0, tx_step, t_global, Ghost(base), Ghost(now));
        proof {
            now = now.fill(
                y,
                road_begin as int,
                road_end as int,
                Ink::Road { tint: pal.road, tx0, step: tx_step, t: t_global },
            );
        }
        // Right side of road
        if ground_right {
            paint_run(painter, y, road_end, line.end, &side_color, Ghost(base), Ghost(now));
            proof {
                now = now.fill(y, road_end as int, line.end as int, Ink::Plain(side_color));
            }
        }
        horizon.set(
            y as usize,
            LineVisibility {
                road: true,
                begin: if ground_left {
                    0
                } else {
                    road_begin
                },
                end: if ground_right {
                    w
                } else {
                    road_end
                },
            },
        );
        proof {
            now = now.put(
                y as int,
                LineVisibility {
                    road: true,
                    begin: if ground_left {
                        0
                    } else {
                        road_begin
                    },
                    end: if ground_right {
                        w
                    } else {
                        road_end
                    },
                },
            );
            assert(now == close_row(
                c,
                w,
                y,
                st.style,
                row_span(self.near, w, st.state, st.x_curve, hit, pal.half_width).unwrap(),
                t_global,
                pal,
            ));
        }
        match st.style.0 {
            SideInclination::Uphill => {
                carve_left(
                    painter,
                    horizon,
                    y - 1,
                    road_left as i64 - 1,
                    &side_color,
                    Ghost(base),
                    Ghost(now),
                );
                proof {
                    now = wedge_left(
                        now,
                        (y - 1) as i32,
                        road_left - 1,
                        Ink::Plain(side_color),
                    );
                }
            },
            _ => {},
        }
        match st.style.1 {
            SideInclination::Uphill => {
                carve_right(
                    painter,
                    horizon,
                    y - 1,
                    road_right as i64 + 1,
                    w,
                    &side_color,
                    Ghost(base),
                    Ghost(now),
                );
            },
            _ => {},
        }
        true
    }

    /// Scans the stretch `st` from row `y` upward: draws row after row
    /// until one ends the scan or the top of the screen is passed, and
    /// leaves the cursor `y` on the first row that was not drawn.
    fn render_road<P: Painter>(
        &self,
        painter: &mut P,
        size: (i32, i32),
        y: &mut i32,
        st: &Stretch,
        horizon: &mut Vec<LineVisibility>,
        Ghost(base): Ghost<Seq<Plot<P::ColorType>>>,
        Ghost(c): Ghost<Canvas<P::ColorType>>,
    )
        requires
            on_canvas(old(painter), old(horizon), base, c),
            -1 <= *old(y) < old(horizon).len(),
            size.1 == old(horizon).len(),
        ensures
            final(painter).palette() == old(painter).palette(),
            final(horizon).len() == old(horizon).len(),
            on_canvas(
                final(painter),
                final(horizon),
                base,
                scan(c, self.near, size.0, size.1, *old(y), *st, old(painter).palette()).0,
            ),
            *final(y) == scan(c, self.near, size.0, size.1, *old(y), *st, old(painter).palette()).1,
            -1 <= *final(y) <= *old(y),
    {
        proof {
            reveal(scan);
        }
        if self.near == 0 {
            return ;
        }
        let w: i32 = size.0;
        let h: i32 = size.1;
        let s: Projection = st.state;
        let ghost pal = painter.palette();
        let ghost mut now = c;
        let base_tx: i32 = wdiv(256, self.near);  // FP1

        if st.y_curve == 0 {
            // Simple plane
            let t_factor: i32 = isqrt(wadd(65536, wmul(s.y_slope, s.y_slope)));  // FP1
            loop
                invariant_except_break
                    scan(now, self.near, w, h, *y, *st, pal) == scan(
                        c,
                        self.near,
                        w,
                        h,
                        *old(y),
                        *st,
                        pal,
                    ),
                invariant
                    -1 <= *y <= *old(y),
                    *y < horizon.len(),
                    horizon.len() == old(horizon).len(),
                    self.near != 0,
                    base_tx == inverse_near(self.near),
                    st.y_curve == 0,
                    s == st.state,
                    t_factor == slope_factor(s.y_slope),
                    w == size.0,
                    h == size.1,
                    on_canvas(painter, horizon, base, now),
                    painter.palette() == pal,
                ensures
                    (now, *y) == scan(c, self.near, w, h, *old(y), *st, pal),
                decreases *y + 1,
            {
                proof {
                    reveal(scan);
                }
                if *y < 0 {
                    break ;
                }
                let vy: i32 = wsub(*y, half(h));
                let div: i32 = wsub(down(wmul(self.near, s.y_slope)), vy);
                if div == 0 {
                    break ;
                }
                let z: i32 = wadd(
                    s.z_offset,
                    wdiv(wsub(wmul(s.z_offset, vy), wmul(s.y_offset, self.near)), div),
                );  // FP1
                if z < 0 {
                    break ;
                }
                let z_local: i32 = wsub(z, s.z_offset);
                let t_local: i32 = down(wmul(z_local, t_factor));  // FP1
                if t_local < 0 || t_local >= st.length {
                    break ;
                }
                let hit = RowHit { z, z_local, t_local };
                if !self.render_road_line(
                    painter,
                    size,
                    st,
                    base_tx,
                    *y,
                    hit,
                    horizon,
                    Ghost(base),
                    Ghost(now),
                ) {
                    break ;
                }
                proof {
                    now = line_step(
                        now,
                        w,
                        *y,
                        st.style,
                        row_span(self.near, w, s, st.x_curve, hit, pal.half_width).unwrap(),
                        wrap(st.t_start + t_local),
                        pal,
                    );
                }
                *y = *y - 1;
            }
        } else {
            // Curved plane
            let inv_near: i32 = base_tx;  // FP1
            let abs_y_curve: i32 = if st.y_curve < 0 {
                wsub(0, st.y_curve)
            } else {
                st.y_curve
            };
            let tsqrtcurve: i32 = isqrt(up(abs_y_curve));  // FP1
            loop
                invariant_except_break
                    scan(now, self.near, w, h, *y, *st, pal) == scan(
                        c,
                        self.near,
                        w,
                        h,
                        *old(y),
                        *st,
                        pal,
                    ),
                invariant
                    -1 <= *y <= *old(y),
                    *y < horizon.len(),
                    horizon.len() == old(horizon).len(),
                    self.near != 0,
                    base_tx == inverse_near(self.near),
                    inv_near == base_tx,
                    st.y_curve != 0,
                    s == st.state,
                    tsqrtcurve == curve_factor(st.y_curve),
                    w == size.0,
                    h == size.1,
                    on_canvas(painter, horizon, base, now),
                    painter.palette() == pal,
                ensures
                    (now, *y) == scan(c, self.near, w, h, *old(y), *st, pal),
                decreases *y + 1,
            {
                proof {
                    reveal(scan);
                }
                if *y < 0 {
                    break ;
                }
                let vy: i32 = wmul(wsub(*y, half(h)), inv_near);  // FP1
                let vym: i32 = wsub(vy, s.y_slope);  // FP1
                let disc: i32 = wadd(
                    wmul(vym, vym),
                    wmul(wmul(4, wsub(down(wmul(s.z_offset, vy)), s.y_offset)), st.y_curve),
                );  // FP2
                if disc < 0 {
                    break ;
                }
                let sqrt_disc: i32 = wmul(isqrt(up_half(disc)), 64);  // FP2
                let two_curve: i32 = wmul(2, st.y_curve);
                if two_curve == 0 {
                    break ;
                }
                let z: i32 = wdiv(wsub(up(vym), sqrt_disc), two_curve);  // FP1
                if z < 0 {
                    break ;
                }
                let z_tmp: i32 = down_half(z);  // FP0.5
                let t_local: i32 = wmul(tsqrtcurve, down(wdiv(wmul(z_tmp, z_tmp), 4)));  // FP1
                if t_local < 0 || t_local >= st.length {
                    break ;
                }
                let hit = RowHit { z: wadd(z, s.z_offset), z_local: z, t_local };
                if !self.render_road_line(
                    painter,
                    size,
                    st,
                    base_tx,
                    *y,
                    hit,
                    horizon,
                    Ghost(base),
                    Ghost(now),
                ) {
                    break ;
                }
                proof {
                    now = line_step(
                        now,
                        w,
                        *y,
                        st.style,
                        row_span(self.near, w, s, st.x_curve, hit, pal.half_width).unwrap(),
                        wrap(st.t_start + t_local),
                        pal,
                    );
                }
                *y = *y - 1;
            }
        }
    }

    /// Draws one frame through `painter`, on a screen of `size.0` by
    /// `size.1` pixels, as seen from the current position by a camera at
    /// lateral offset `initial_x_offset` and height `initial_y_offset`
    /// (both FP1).
    ///
    /// The road is drawn from the bottom row up, segment after segment from
    /// the current one; then the sky takes every pixel that is left. Every
    /// pixel of the screen is plotted exactly once.
    pub fn render<P: Painter>(
        &mut self,
        painter: &mut P,
        size: (i32, i32),
        initial_x_offset: i32,
        initial_y_offset: i32,
    )
        requires
            old(self).wf(),
        ensures
            final(self).wf(),
            final(self)@ == old(self)@,
            final(painter).palette() == old(painter).palette(),
            final(painter).plots() == old(painter).plots() + frame(
                old(self)@,
                size.0,
                size.1,
                initial_x_offset,
                initial_y_offset,
                old(painter).palette(),
            ),
            paints_each_pixel_once(
                frame(
                    old(self)@,
                    size.0,
                    size.1,
                    initial_x_offset,
                    initial_y_offset,
                    old(painter).palette(),
                ),
                size.0 as int,
                size.1 as int,
            ),
            final(painter).plots().len() == old(painter).plots().len() + if size.0 > 0 && size.1
                > 0 {
                size.0 * size.1
            } else {
                0
            },
    {
        let w: i32 = size.0;
        let h: i32 = size.1;
        let ghost pos = self@;
        let ghost pal = painter.palette();
        let ghost base = painter.plots();
        proof {
            lemma_frame_paints_each_pixel_once(pos, w, h, initial_x_offset, initial_y_offset, pal);
        }
        if w <= 0 || h <= 0 {
            assert(base + Seq::<Plot<P::ColorType>>::empty() =~= base);
            return ;
        }
        let mut state = Projection {
            x_offset: initial_x_offset,
            y_offset: initial_y_offset,
            z_offset: 0,
            x_slope: 0,
            y_slope: 0,
        };
        let mut t_start: i32 = self.cur_t;
        let mut y_start: i32 = h - 1;
        let mut horizon: Vec<LineVisibility> = Vec::new();
        let mut row: i32 = 0;
        while row < h
            invariant
                0 <= row <= h,
                horizon.len() == row,
                forall|r: int| 0 <= r < row ==> horizon@[r] == open_row(w),
            decreases h - row,
        {
            horizon.push(LineVisibility { road: false, begin: 0, end: w });
            row = row + 1;
        }
        let ghost mut now = Canvas::<P::ColorType>::blank(w, h as int);
        proof {
            assert(horizon@ =~= now.rows);
            assert(base + now.plots =~= base);
            lemma_locate_bounds(self.segments@, self.cur_t as int);
        }

        let mut render_segment: usize = self.cur_segment;
        let mut local_t: i32 = self.cur_t - self.base_t;
        loop
            invariant_except_break
                road_from(now, pos, w, h, render_segment as int, state, t_start, y_start, pal)
                    == road(pos, w, h, initial_x_offset, initial_y_offset, pal),
            invariant
                pos == self@,
                *self == *old(self),
                valid_track(self.segments@),
                self.cur_segment <= render_segment,
                w == size.0,
                h == size.1,
                render_segment <= self.segments@.len(),
                0 <= local_t,
                local_t == if render_segment == self.cur_segment {
                    self.cur_t - self.base_t
                } else {
                    0
                },
                render_segment < self.segments@.len() ==> local_t
                    <= self.segments@[render_segment as int].length,
                -1 <= y_start < h,
                horizon.len() == h,
                on_canvas(painter, &horizon, base, now),
                painter.palette() == pal,
            ensures
                now == road(pos, w, h, initial_x_offset, initial_y_offset, pal),
                on_canvas(painter, &horizon, base, now),
                painter.palette() == pal,
                horizon.len() == h,
            decreases self.segments@.len() - render_segment,
        {
            proof {
                lemma_road_from_step(
                    now,
                    pos,
                    w,
                    h,
                    render_segment as int,
                    state,
                    t_start,
                    y_start,
                    pal,
                );
            }
            if render_segment >= self.segments.len() {
                break ;
            }
            let st = Stretch {
                style: self.segments[render_segment].side_style,
                x_curve: self.segments[render_segment].x_curve,
                y_curve: self.segments[render_segment].y_curve,
                length: self.segments[render_segment].length - local_t,
                t_start,
                state,
            };
            proof {
                assert(st == stretch_at(pos, render_segment as int, state, t_start));
            }
            let ghost before = now;
            let ghost y_before = y_start;
            self.render_road(painter, size, &mut y_start, &st, &mut horizon, Ghost(base), Ghost(now));
            proof {
                now = scan(before, self.near, w, h, y_before, st, pal).0;
            }
            if !self.update_state_at_segment_length(render_segment, st.length, &mut state) {
                break ;
            }

            t_start = wadd(t_start, st.length);
            render_segment = render_segment + 1;
            local_t = 0;
        }

        self.render_sky(painter, size, &horizon, Ghost(base), Ghost(now));
    }
}

} // verus!
