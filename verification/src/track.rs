//! The track: a sequence of constant-curvature segments, and where a
//! distance along it falls.
use vstd::prelude::*;

verus! {

/// How the terrain beside the road rises or falls.
#[derive(Copy, Clone)]
pub enum SideInclination {
    Uphill,
    Flat,
    Downhill,
}

/// One stretch of road with constant curvature and side profile.
pub struct Segment {
    /// Profile of the left and of the right shoulder.
    pub side_style: (SideInclination, SideInclination),
    /// Length along the track, FP1.
    pub length: i32,
    /// Horizontal curvature, FP1.
    pub x_curve: i32,
    /// Vertical curvature, FP1.
    pub y_curve: i32,
}

impl Segment {
    pub fn new(
        side_style: (SideInclination, SideInclination),
        length: i32,
        x_curve: i32,
        y_curve: i32,
    ) -> (s: Self)
        ensures
            s.side_style == side_style,
            s.length == length,
            s.x_curve == x_curve,
            s.y_curve == y_curve,
    {
        Segment { side_style, length, x_curve, y_curve }
    }
}

/// A track is valid when no segment has a negative length.
pub open spec fn valid_track(track: Seq<Segment>) -> bool {
    forall|i: int| 0 <= i < track.len() ==> (#[trigger] track[i]).length >= 0
}

/// Distance from the start of the track to the start of segment `n`: the
/// lengths of the first `n` segments, added up.
pub open spec fn prefix_length(track: Seq<Segment>, n: int) -> int
    decreases n,
{
    if n <= 0 {
        0
    } else {
        prefix_length(track, n - 1) + track[n - 1].length
    }
}

/// Distance from the start of the track to the end of segment `i`.
pub open spec fn segment_end(track: Seq<Segment>, i: int) -> int {
    prefix_length(track, i + 1)
}

/// The first segment at or after `i` that ends beyond distance `t`; the
/// number of segments if there is none.
pub open spec fn locate_from(track: Seq<Segment>, t: int, i: int) -> int
    decreases track.len() - i,
{
    if i >= track.len() {
        track.len() as int
    } else if t < segment_end(track, i) {
        i
    } else {
        locate_from(track, t, i + 1)
    }
}

/// The segment that distance `t` falls in: the first one that ends beyond
/// `t`. Past the end of the track it is the number of segments.
pub open spec fn locate(track: Seq<Segment>, t: int) -> int {
    locate_from(track, t, 0)
}

/// Tells whether no segment has a negative length.
pub fn is_valid_track(segments: &[Segment]) -> (ok: bool)
    ensures
        ok == valid_track(segments@),
{
    let mut i: usize = 0;
    while i < segments.len()
        invariant
            i <= segments.len(),
            forall|j: int| 0 <= j < i ==> (#[trigger] segments@[j]).length >= 0,
        decreases segments.len() - i,
    {
        if segments[i].length < 0 {
            return false;
        }
        i = i + 1;
    }
    true
}

/// On a valid track the start of a segment is never negative and never
/// before the start of an earlier segment.
pub proof fn lemma_prefix_monotonic(track: Seq<Segment>, m: int, n: int)
    requires
        valid_track(track),
        0 <= m <= n <= track.len(),
    ensures
        0 <= prefix_length(track, m) <= prefix_length(track, n),
    decreases n,
{
    if m < n {
        lemma_prefix_monotonic(track, m, n - 1);
        assert(track[n - 1].length >= 0);
    } else if n > 0 {
        lemma_prefix_monotonic(track, m - 1, n - 1);
        assert(track[n - 1].length >= 0);
    }
}

/// What [`locate_from`] finds: an index `r` from `i` up, such that every
/// segment from `i` to before `r` ends at or before `t`, and segment `r`, if
/// there is one, ends beyond `t`.
pub proof fn lemma_locate_from(track: Seq<Segment>, t: int, i: int)
    requires
        0 <= i <= track.len(),
    ensures
        i <= locate_from(track, t, i) <= track.len(),
        forall|j: int| i <= j < locate_from(track, t, i) ==> #[trigger] segment_end(track, j) <= t,
        locate_from(track, t, i) < track.len() ==> t < segment_end(
            track,
            locate_from(track, t, i),
        ),
    decreases track.len() - i,
{
    if i < track.len() && !(t < segment_end(track, i)) {
        lemma_locate_from(track, t, i + 1);
    }
}

/// Searching from a later segment finds the same one, as long as everything
/// skipped ends at or before `t`.
pub proof fn lemma_locate_skip(track: Seq<Segment>, t: int, i: int)
    requires
        0 <= i <= track.len(),
        forall|j: int| 0 <= j < i ==> #[trigger] segment_end(track, j) <= t,
    ensures
        locate_from(track, t, i) == locate(track, t),
    decreases i,
{
    if i > 0 {
        lemma_locate_skip(track, t, i - 1);
        assert(segment_end(track, i - 1) <= t);
    }
}

/// On a valid track a distance that is not negative lies at or after the
/// start of the segment it falls in, and before that segment's end.
pub proof fn lemma_locate_bounds(track: Seq<Segment>, t: int)
    requires
        valid_track(track),
        0 <= t,
    ensures
        0 <= locate(track, t) <= track.len(),
        0 <= prefix_length(track, locate(track, t)) <= t,
        locate(track, t) < track.len() ==> t < prefix_length(track, locate(track, t))
            + track[locate(track, t)].length,
{
    lemma_locate_from(track, t, 0);
    let r: int = locate(track, t);
    lemma_prefix_monotonic(track, 0, r);
    if r > 0 {
        assert(segment_end(track, r - 1) <= t);
    }
}

/// A later distance never falls in an earlier segment.
pub proof fn lemma_locate_monotonic(track: Seq<Segment>, t1: int, t2: int)
    requires
        t1 <= t2,
    ensures
        locate(track, t1) <= locate(track, t2),
        locate_from(track, t2, locate(track, t1)) == locate(track, t2),
{
    lemma_locate_from(track, t1, 0);
    lemma_locate_skip(track, t2, locate(track, t1));
    lemma_locate_from(track, t2, locate(track, t1));
}

} // verus!
