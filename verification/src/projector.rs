//! The perspective projector: how a stretch of track moves the road in
//! world space, and where a point of the track lands on the screen.
//!
//! All formulas are fixed point, on `i32` in two's complement (see
//! [`crate::fixed`]). A divisor that turns out to be zero ends the
//! computation: the functions here then have no result.
use crate::fixed::{lemma_sqrt_floor_square, lemma_wrap_fits, quot, sqrt_floor, wrap};
use crate::renderer::Position;
use crate::track::{lemma_locate_bounds, Segment};
use vstd::prelude::*;

verus! {

/// World-space state of the road at some point of the track, relative to
/// the camera. All fields are FP1.
#[derive(Copy, Clone)]
pub struct Projection {
    pub x_offset: i32,
    pub y_offset: i32,
    pub z_offset: i32,
    pub x_slope: i32,
    pub y_slope: i32,
}

/// Length of a unit step along a line of slope `slope`, FP1:
/// `sqrt(1 + slope^2)`.
pub open spec fn slope_factor(slope: i32) -> int {
    sqrt_floor(wrap(65536 + wrap(slope * slope)) as int)
}

/// `sqrt(|curve|)`, FP1.
pub open spec fn curve_factor(curve: i32) -> int {
    sqrt_floor(
        wrap(
            if curve < 0 {
                wrap(-curve)
            } else {
                curve
            } * 256,
        ) as int,
    )
}

/// On a vertically curved stretch, the square of the depth that `length`
/// of track covers: `4 * length / sqrt(|curve|)`.
pub open spec fn curved_span(y_curve: i32, length: int) -> Option<i32> {
    if curve_factor(y_curve) == 0 {
        None
    } else {
        Some(wrap(quot(wrap(4 * length) as int, curve_factor(y_curve))))
    }
}

/// The depth, FP1, that `length` of track covers: on a vertically straight
/// stretch `length / sqrt(1 + slope^2)`, on a curved one the square root of
/// [`curved_span`].
pub open spec fn depth_step(y_curve: i32, length: int, y_slope: i32) -> Option<i32> {
    if y_curve == 0 {
        if slope_factor(y_slope) == 0 {
            None
        } else {
            Some(wrap(quot(wrap(length * 256) as int, slope_factor(y_slope))))
        }
    } else {
        match curved_span(y_curve, length) {
            None => None,
            Some(z2) => Some(wrap(sqrt_floor(wrap(z2 * 256) as int) * 16)),
        }
    }
}

/// The state `length` further along `seg`, or nothing where a divisor is zero.
///
/// Depth grows by [`depth_step`]. On a straight axis the offset grows by
/// slope times depth and the slope stays. On a curved axis the offset grows
/// by the quadratic term and by slope times depth, and the slope grows by
/// twice curvature times depth.
#[verifier::opaque]
pub open spec fn integrate(seg: Segment, length: int, s: Projection) -> Option<Projection> {
    match depth_step(seg.y_curve, length, s.y_slope) {
        None => None,
        Some(z) => Some(
            Projection {
                x_offset: if seg.x_curve == 0 {
                    wrap(s.x_offset + wrap(s.x_slope * z) / 256)
                } else {
                    wrap(
                        s.x_offset + wrap(
                            wrap((wrap(seg.x_curve * z) / 256) * z) / 256 + wrap(s.x_slope * z)
                                / 256,
                        ),
                    )
                },
                y_offset: if seg.y_curve == 0 {
                    wrap(s.y_offset + wrap(s.y_slope * z) / 256)
                } else {
                    wrap(
                        s.y_offset + wrap(
                            wrap(seg.y_curve * curved_span(seg.y_curve, length).unwrap()) + wrap(
                                s.y_slope * z,
                            ) / 256,
                        ),
                    )
                },
                z_offset: wrap(s.z_offset + z),
                x_slope: if seg.x_curve == 0 {
                    s.x_slope
                } else {
                    wrap(s.x_slope + wrap(wrap(2 * seg.x_curve) * z) / 256)
                },
                y_slope: if seg.y_curve == 0 {
                    s.y_slope
                } else {
                    wrap(s.y_slope + wrap(wrap(seg.y_curve * z) * 2) / 256)
                },
            },
        ),
    }
}

/// The state after walking `t_left` of track from segment `i`, of which
/// `used` lies behind already. The walk ends where the distance is used up,
/// where the track ends, or where a divisor is zero.
pub open spec fn walk(track: Seq<Segment>, i: int, used: int, t_left: int, s: Projection)
    -> Projection
    decreases track.len() - i,
{
    if i >= track.len() {
        s
    } else {
        let length_left = track[i].length - used;
        let length = if t_left < length_left {
            t_left
        } else {
            length_left
        };
        match integrate(track[i], length, s) {
            None => s,
            Some(next) => if t_left - length == 0 {
                next
            } else {
                walk(track, i + 1, 0, t_left - length, next)
            },
        }
    }
}

/// Screen position of a point of the track.
pub struct ScreenPos {
    /// Column, in pixels.
    pub x_px: i32,
    /// Row, in pixels.
    pub y_px: i32,
    /// `1 / depth`, FP3; negative behind the camera.
    pub inv_z: i32,
}

/// Where the point that lies `point_t` further along the track than `pos`,
/// at lateral offset `point_x` and height `point_y`, lands on a screen of
/// `w` by `h` pixels, for a camera at lateral offset `camera_x` and height
/// `camera_y`.
///
/// The road is walked to the point; then the point is projected around the
/// centre of the screen, scaled by `near / depth`. A depth of zero counts as one.
pub open spec fn screen_pos(
    pos: Position,
    w: i32,
    h: i32,
    camera_x: i32,
    camera_y: i32,
    point_t: i32,
    point_x: i32,
    point_y: i32,
) -> ScreenPos {
    let s = walk(
        pos.track,
        pos.segment,
        pos.distance - pos.segment_start,
        point_t as int,
        Projection { x_offset: camera_x, y_offset: camera_y, z_offset: 0, x_slope: 0, y_slope: 0 },
    );
    let z: int = if s.z_offset == 0 {
        1
    } else {
        s.z_offset as int
    };
    ScreenPos {
        x_px: wrap(quot(w as int, 2) + wrap(quot(wrap(pos.near * wrap(point_x - s.x_offset)) as int, z))),
        y_px: wrap(quot(h as int, 2) + wrap(quot(wrap(pos.near * wrap(s.y_offset - point_y)) as int, z))),
        inv_z: wrap(quot(16777216, z)),
    }
}

/// A stretch of length zero on a segment without curvature, entered with
/// slope zero, changes nothing.
pub proof fn lemma_integrate_nothing(seg: Segment, s: Projection)
    requires
        seg.x_curve == 0,
        seg.y_curve == 0,
        s.y_slope == 0,
        s.x_slope == 0,
    ensures
        integrate(seg, 0, s) == Some(
            Projection { z_offset: wrap(s.z_offset + 0), ..s },
        ),
{
    reveal(integrate);
    lemma_wrap_fits(0);
    lemma_wrap_fits(65536);
    lemma_sqrt_floor_square(256);
    assert(256 * 256 == 65536);
    assert(slope_factor(0) == 256);
    assert(quot(0, 256) == 0);
    assert(depth_step(0, 0, 0) == Some(0i32));
    lemma_wrap_fits(s.x_offset as int);
    lemma_wrap_fits(s.y_offset as int);
}

/// A point at the camera's own distance and lateral offset, on a segment
/// without curvature, lands on the middle column of the screen, and its
/// inverse depth is positive. At the camera's own height it lands on the
/// middle row too.
pub proof fn lemma_screen_pos_at_camera(
    pos: Position,
    w: i32,
    h: i32,
    camera_x: i32,
    camera_y: i32,
    point_y: i32,
)
    requires
        pos.well_formed(),
        pos.segment < pos.track.len() ==> pos.track[pos.segment].x_curve == 0
            && pos.track[pos.segment].y_curve == 0,
    ensures
        screen_pos(pos, w, h, camera_x, camera_y, 0, camera_x, point_y).x_px == quot(w as int, 2),
        screen_pos(pos, w, h, camera_x, camera_y, 0, camera_x, point_y).inv_z > 0,
        point_y == camera_y ==> screen_pos(pos, w, h, camera_x, camera_y, 0, camera_x, point_y).y_px
            == quot(h as int, 2),
{
    let start = Projection {
        x_offset: camera_x,
        y_offset: camera_y,
        z_offset: 0,
        x_slope: 0,
        y_slope: 0,
    };
    let s = walk(pos.track, pos.segment, pos.distance - pos.segment_start, 0, start);
    lemma_wrap_fits(0);
    lemma_locate_bounds(pos.track, pos.distance);
    if pos.segment < pos.track.len() {
        lemma_integrate_nothing(pos.track[pos.segment], start);
        assert(s == start);
    } else {
        assert(s == start);
    }
    assert(quot(0, 1) == 0);
    assert(quot(16777216, 1) == 16777216);
    lemma_wrap_fits(16777216);
    assert(pos.near * 0 == 0);
    lemma_wrap_fits(quot(w as int, 2));
    lemma_wrap_fits(quot(h as int, 2));
}

} // verus!
