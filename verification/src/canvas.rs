//! The model of one frame in progress: what each row's visibility record
//! says, and which pixels have been plotted.
use crate::fixed::wrap;
use crate::painter::Plot;
use vstd::prelude::*;

verus! {

/// Per-line visibility information.
///
/// While `road` is false the row is open: the pixels from `begin` up to, not
/// including, `end` are still free, and everything outside is taken. Once the
/// road has been drawn on the row, `road` is true and the meaning flips: the
/// pixels from `begin` up to `end` are taken and the rest is left for the sky.
#[derive(Copy, Clone)]
pub struct LineVisibility {
    pub road: bool,
    pub begin: i32,
    pub end: i32,
}

impl LineVisibility {
    /// Whether the record says that pixel `x` of its row is taken.
    pub open spec fn painted(self, x: int) -> bool {
        if self.road {
            self.begin <= x < self.end
        } else {
            x < self.begin || self.end <= x
        }
    }

    /// The interval lies on a row of `w` pixels.
    pub open spec fn in_bounds(self, w: int) -> bool {
        0 <= self.begin <= self.end <= w
    }
}

/// The record of a row on which nothing has been drawn.
pub open spec fn open_row(w: i32) -> LineVisibility {
    LineVisibility { road: false, begin: 0, end: w }
}

/// `v` raised to at least `lo`, then lowered to at most `hi`.
pub open spec fn clamp(v: int, lo: int, hi: int) -> int {
    let raised = if v < lo {
        lo
    } else {
        v
    };
    if raised > hi {
        hi
    } else {
        raised
    }
}

/// The lateral coordinate (FP2) of column `x` on a row whose column 0 lies
/// at `tx0` and whose columns are `step` apart.
pub open spec fn lateral(tx0: i32, step: i32, x: int) -> i32 {
    wrap(tx0 + step * x)
}

/// How the pixels of a run get their colour.
pub enum Ink<C> {
    /// All in one colour.
    Plain(C),
    /// Each in the colour that `tint` gives the lateral coordinate of its
    /// column, at distance `t` from the start of the track.
    Road { tint: spec_fn(i32, i32) -> C, tx0: i32, step: i32, t: i32 },
}

impl<C> Ink<C> {
    /// The colour of column `x`.
    pub open spec fn at(self, x: int) -> C {
        match self {
            Ink::Plain(color) => color,
            Ink::Road { tint, tx0, step, t } => tint(lateral(tx0, step, x), t),
        }
    }
}

/// The plots of the pixels from `a` up to, not including, `b` on row `y`,
/// from left to right.
pub open spec fn run<C>(y: i32, a: int, b: int, ink: Ink<C>) -> Seq<Plot<C>> {
    Seq::new(
        if a < b {
            (b - a) as nat
        } else {
            0
        },
        |i: int| Plot { x: (a + i) as i32, y, color: ink.at(a + i) },
    )
}

/// How often pixel (`x`, `y`) occurs among `plots`.
pub open spec fn hits<C>(plots: Seq<Plot<C>>, x: int, y: int) -> nat
    decreases plots.len(),
{
    if plots.len() == 0 {
        0
    } else {
        hits(plots.drop_last(), x, y) + if plots.last().x == x && plots.last().y == y {
            1nat
        } else {
            0nat
        }
    }
}

/// Every plot lies on a screen of `w` by `h` pixels.
pub open spec fn within<C>(plots: Seq<Plot<C>>, w: int, h: int) -> bool {
    forall|i: int|
        0 <= i < plots.len() ==> 0 <= (#[trigger] plots[i]).x < w && 0 <= plots[i].y < h
}

/// Every pixel of a screen of `w` by `h` pixels occurs exactly once among
/// `plots`, and nothing else does.
pub open spec fn paints_each_pixel_once<C>(plots: Seq<Plot<C>>, w: int, h: int) -> bool {
    &&& within(plots, w, h)
    &&& forall|x: int, y: int| 0 <= x < w && 0 <= y < h ==> #[trigger] hits(plots, x, y) == 1
}

/// A frame in progress.
pub struct Canvas<C> {
    /// The visibility record of each row, top row first.
    pub rows: Seq<LineVisibility>,
    /// The pixels plotted in this frame so far, oldest first.
    pub plots: Seq<Plot<C>>,
}

impl<C> Canvas<C> {
    /// The canvas at the start of a frame: every row open, nothing plotted.
    pub open spec fn blank(w: i32, h: int) -> Self {
        Canvas { rows: Seq::new(h as nat, |r: int| open_row(w)), plots: Seq::empty() }
    }

    /// The canvas after plotting the pixels from `a` up to `b` on row `y`.
    pub open spec fn fill(self, y: i32, a: int, b: int, ink: Ink<C>) -> Self {
        Canvas { rows: self.rows, plots: self.plots + run(y, a, b, ink) }
    }

    /// The canvas with the record of row `y` replaced.
    pub open spec fn put(self, y: int, line: LineVisibility) -> Self {
        Canvas { rows: self.rows.update(y, line), plots: self.plots }
    }

    /// Takes the free pixels of the open row `y` that lie left of `cut`:
    /// plots them and moves the row's `begin` up.
    pub open spec fn take_left(self, y: i32, cut: int, ink: Ink<C>) -> Self {
        let line = self.rows[y as int];
        let stop = clamp(cut, line.begin as int, line.end as int);
        self.fill(y, line.begin as int, stop, ink).put(
            y as int,
            LineVisibility { road: line.road, begin: stop as i32, end: line.end },
        )
    }

    /// Takes the free pixels of the open row `y` that lie at or right of
    /// `cut`: plots them and moves the row's `end` down.
    pub open spec fn take_right(self, y: i32, cut: int, ink: Ink<C>) -> Self {
        let line = self.rows[y as int];
        let start = clamp(cut, line.begin as int, line.end as int);
        self.fill(y, start, line.end as int, ink).put(
            y as int,
            LineVisibility { road: line.road, begin: line.begin, end: start as i32 },
        )
    }

    /// The records and the plots agree: there are `h` rows, every record
    /// lies on the row, every plot lies on the screen, and a pixel has been
    /// plotted once if its row's record says it is taken, and never otherwise.
    pub open spec fn consistent(self, w: int, h: int) -> bool {
        &&& self.rows.len() == h
        &&& forall|r: int| 0 <= r < h ==> (#[trigger] self.rows[r]).in_bounds(w)
        &&& within(self.plots, w, h)
        &&& forall|x: int, r: int|
            0 <= x < w && 0 <= r < h ==> #[trigger] hits(self.plots, x, r) == if self.rows[r].painted(
                x,
            ) {
                1nat
            } else {
                0nat
            }
    }

    /// The rows from the top down to row `y` are still open.
    pub open spec fn open_down_to(self, y: int) -> bool {
        forall|r: int| 0 <= r <= y && r < self.rows.len() ==> !(#[trigger] self.rows[r]).road
    }
}

/// Occurrences add up over concatenation.
pub proof fn lemma_hits_concat<C>(p: Seq<Plot<C>>, q: Seq<Plot<C>>, x: int, y: int)
    ensures
        hits(p + q, x, y) == hits(p, x, y) + hits(q, x, y),
    decreases q.len(),
{
    if q.len() == 0 {
        assert(p + q =~= p);
    } else {
        assert((p + q).drop_last() =~= p + q.drop_last());
        lemma_hits_concat(p, q.drop_last(), x, y);
    }
}

/// A run holds each of its pixels once and no other.
pub proof fn lemma_hits_run<C>(y: i32, a: int, b: int, ink: Ink<C>, x: int, r: int)
    requires
        i32::MIN <= a,
        b <= i32::MAX,
    ensures
        hits(run(y, a, b, ink), x, r) == if r == y && a <= x < b {
            1nat
        } else {
            0nat
        },
    decreases b - a,
{
    if a < b {
        assert(run(y, a, b, ink).drop_last() =~= run(y, a, b - 1, ink));
        lemma_hits_run(y, a, b - 1, ink, x, r);
    }
}

/// What plotting a run adds to the occurrences of every pixel.
pub proof fn lemma_fill_hits<C>(c: Canvas<C>, y: i32, a: int, b: int, ink: Ink<C>)
    requires
        i32::MIN <= a,
        b <= i32::MAX,
    ensures
        forall|x: int, r: int| #[trigger]
            hits(c.fill(y, a, b, ink).plots, x, r) == hits(c.plots, x, r) + if r == y && a <= x
                < b {
                1nat
            } else {
                0nat
            },
{
    assert forall|x: int, r: int| #[trigger]
        hits(c.fill(y, a, b, ink).plots, x, r) == hits(c.plots, x, r) + if r == y && a <= x < b {
            1nat
        } else {
            0nat
        } by {
        lemma_hits_concat(c.plots, run(y, a, b, ink), x, r);
        lemma_hits_run(y, a, b, ink, x, r);
    }
}

/// A run on the screen keeps the plots on the screen.
pub proof fn lemma_fill_within<C>(
    c: Canvas<C>,
    y: i32,
    a: int,
    b: int,
    ink: Ink<C>,
    w: int,
    h: int,
)
    requires
        within(c.plots, w, h),
        0 <= y < h,
        0 <= a,
        b <= w <= i32::MAX,
    ensures
        within(c.fill(y, a, b, ink).plots, w, h),
{
}

/// A blank canvas is consistent.
pub proof fn lemma_blank_consistent<C>(w: i32, h: int)
    requires
        0 <= w,
        0 <= h,
    ensures
        Canvas::<C>::blank(w, h).consistent(w as int, h),
        Canvas::<C>::blank(w, h).open_down_to(h - 1),
{
}

/// Taking pixels from the left of an open row keeps the canvas consistent
/// and the open rows open.
pub proof fn lemma_take_left_consistent<C>(
    c: Canvas<C>,
    y: i32,
    cut: int,
    ink: Ink<C>,
    w: int,
    h: int,
)
    requires
        c.consistent(w, h),
        0 <= y < h,
        w <= i32::MAX,
        !c.rows[y as int].road,
    ensures
        c.take_left(y, cut, ink).consistent(w, h),
        forall|k: int| c.open_down_to(k) ==> c.take_left(y, cut, ink).open_down_to(k),
{
    let line = c.rows[y as int];
    assert(line.in_bounds(w));
    let stop = clamp(cut, line.begin as int, line.end as int);
    lemma_fill_hits(c, y, line.begin as int, stop, ink);
    lemma_fill_within(c, y, line.begin as int, stop, ink, w, h);
}

/// Taking pixels from the right of an open row keeps the canvas consistent
/// and the open rows open.
pub proof fn lemma_take_right_consistent<C>(
    c: Canvas<C>,
    y: i32,
    cut: int,
    ink: Ink<C>,
    w: int,
    h: int,
)
    requires
        c.consistent(w, h),
        0 <= y < h,
        w <= i32::MAX,
        !c.rows[y as int].road,
    ensures
        c.take_right(y, cut, ink).consistent(w, h),
        forall|k: int| c.open_down_to(k) ==> c.take_right(y, cut, ink).open_down_to(k),
{
    let line = c.rows[y as int];
    assert(line.in_bounds(w));
    let start = clamp(cut, line.begin as int, line.end as int);
    lemma_fill_hits(c, y, start, line.end as int, ink);
    lemma_fill_within(c, y, start, line.end as int, ink, w, h);
}

/// How many of `plots` come before pixel (`x`, `y`) when the screen is
/// read row by row, each row from left to right.
pub open spec fn plotted_before<C>(plots: Seq<Plot<C>>, y: int, x: int) -> nat
    decreases plots.len(),
{
    if plots.len() == 0 {
        0
    } else {
        plotted_before(plots.drop_last(), y, x) + if plots.last().y < y || (plots.last().y == y
            && plots.last().x < x) {
            1nat
        } else {
            0nat
        }
    }
}

/// Moving the mark one pixel to the right adds the occurrences of the pixel passed.
pub proof fn lemma_plotted_before_step<C>(plots: Seq<Plot<C>>, y: int, x: int)
    ensures
        plotted_before(plots, y, x + 1) == plotted_before(plots, y, x) + hits(plots, x, y),
    decreases plots.len(),
{
    if plots.len() > 0 {
        lemma_plotted_before_step(plots.drop_last(), y, x);
    }
}

/// On a screen `w` wide, the mark at the end of a row equals the mark at
/// the start of the next row.
pub proof fn lemma_plotted_before_row<C>(plots: Seq<Plot<C>>, w: int, h: int, y: int)
    requires
        within(plots, w, h),
    ensures
        plotted_before(plots, y, w) == plotted_before(plots, y + 1, 0),
    decreases plots.len(),
{
    if plots.len() > 0 {
        assert(0 <= plots[plots.len() - 1].x < w);
        assert forall|i: int| 0 <= i < plots.drop_last().len() implies 0 <= (
        #[trigger] plots.drop_last()[i]).x < w && 0 <= plots.drop_last()[i].y < h by {
            assert(plots.drop_last()[i] == plots[i]);
        }
        lemma_plotted_before_row(plots.drop_last(), w, h, y);
    }
}

/// On a screen `h` high, nothing comes before the first pixel, and
/// everything comes before the end of the last row.
pub proof fn lemma_plotted_before_ends<C>(plots: Seq<Plot<C>>, w: int, h: int)
    requires
        within(plots, w, h),
    ensures
        plotted_before(plots, 0, 0) == 0,
        plotted_before(plots, h, 0) == plots.len(),
    decreases plots.len(),
{
    if plots.len() > 0 {
        assert(0 <= plots[plots.len() - 1].y < h);
        assert(0 <= plots[plots.len() - 1].x < w);
        assert forall|i: int| 0 <= i < plots.drop_last().len() implies 0 <= (
        #[trigger] plots.drop_last()[i]).x < w && 0 <= plots.drop_last()[i].y < h by {
            assert(plots.drop_last()[i] == plots[i]);
        }
        lemma_plotted_before_ends(plots.drop_last(), w, h);
    }
}

/// Where every pixel has been plotted once, `y * w + x` plots come before
/// pixel (`x`, `y`).
pub proof fn lemma_plotted_before_counts<C>(plots: Seq<Plot<C>>, w: int, h: int, y: int, x: int)
    requires
        paints_each_pixel_once(plots, w, h),
        0 <= w,
        0 <= x <= w,
        0 <= y < h || (y == h && x == 0),
        0 <= y,
    ensures
        plotted_before(plots, y, x) == y * w + x,
    decreases y, x,
{
    if x > 0 {
        lemma_plotted_before_counts(plots, w, h, y, x - 1);
        lemma_plotted_before_step(plots, y, x - 1);
        assert(hits(plots, x - 1, y) == 1);
    } else if y > 0 {
        lemma_plotted_before_counts(plots, w, h, y - 1, w);
        lemma_plotted_before_row(plots, w, h, y - 1);
        assert((y - 1) * w + w == y * w) by (nonlinear_arith);
    } else {
        lemma_plotted_before_ends(plots, w, h);
        assert(0 * w == 0);
    }
}

/// Plots that hold every pixel of a screen once, and nothing else, are as
/// many as the screen has pixels.
pub proof fn lemma_each_pixel_once_counts<C>(plots: Seq<Plot<C>>, w: int, h: int)
    requires
        paints_each_pixel_once(plots, w, h),
        0 <= w,
        0 <= h,
    ensures
        plots.len() == w * h,
{
    lemma_plotted_before_counts(plots, w, h, h, 0);
    lemma_plotted_before_ends(plots, w, h);
}

} // verus!
