//! Plotting runs of pixels through a painter, in step with the model of
//! the frame.
use crate::canvas::{clamp, lateral, Canvas, Ink, LineVisibility};
use crate::fixed::{lemma_wrap_add_inner, wadd, wmul};
use crate::painter::{Painter, Plot};
use crate::raster::{wedge_left, wedge_right};
use vstd::prelude::*;

verus! {

/// The painter has plotted `base` and after it the plots of `c`, and
/// `horizon` holds the records of `c`.
pub open spec fn on_canvas<P: Painter>(
    painter: &P,
    horizon: &Vec<LineVisibility>,
    base: Seq<Plot<P::ColorType>>,
    c: Canvas<P::ColorType>,
) -> bool {
    painter.plots() == base + c.plots && horizon@ == c.rows
}

/// `v` raised to at least `lo`, then lowered to at most `hi`.
pub(crate) fn clamp_to(v: i64, lo: i32, hi: i32) -> (r: i32)
    ensures
        r == clamp(v as int, lo as int, hi as int),
{
    let raised: i64 = if v < lo as i64 {
        lo as i64
    } else {
        v
    };
    if raised > hi as i64 {
        hi
    } else {
        raised as i32
    }
}

/// Appending one more pixel to a run.
proof fn lemma_run_grows<C>(
    base: Seq<Plot<C>>,
    c: Canvas<C>,
    y: i32,
    a: int,
    x: int,
    ink: Ink<C>,
)
    requires
        a <= x,
        i32::MIN <= a,
        x < i32::MAX,
    ensures
        (base + c.fill(y, a, x, ink).plots).push(Plot { x: x as i32, y, color: ink.at(x) }) == base
            + c.fill(y, a, x + 1, ink).plots,
{
    assert((base + c.fill(y, a, x, ink).plots).push(Plot { x: x as i32, y, color: ink.at(x) })
        =~= base + c.fill(y, a, x + 1, ink).plots);
}

/// A run without pixels changes nothing.
proof fn lemma_run_empty<C>(base: Seq<Plot<C>>, c: Canvas<C>, y: i32, a: int, b: int, ink: Ink<C>)
    requires
        b <= a,
    ensures
        base + c.fill(y, a, b, ink).plots == base + c.plots,
        c.fill(y, a, b, ink) == c,
{
    assert(c.fill(y, a, b, ink).plots =~= c.plots);
}

/// Plots the pixels from `a` up to, not including, `b` on row `y`, all in
/// one colour.
pub(crate) fn paint_run<P: Painter>(
    painter: &mut P,
    y: i32,
    a: i32,
    b: i32,
    color: &P::ColorType,
    Ghost(base): Ghost<Seq<Plot<P::ColorType>>>,
    Ghost(c): Ghost<Canvas<P::ColorType>>,
)
    requires
        old(painter).plots() == base + c.plots,
    ensures
        final(painter).plots() == base + c.fill(y, a as int, b as int, Ink::Plain(*color)).plots,
        final(painter).palette() == old(painter).palette(),
{
    let ghost ink = Ink::Plain(*color);
    let mut x: i32 = a;
    proof {
        lemma_run_empty(base, c, y, a as int, a as int, ink);
    }
    while x < b
        invariant
            a <= x,
            x <= b || x == a,
            ink == Ink::Plain(*color),
            painter.plots() == base + c.fill(y, a as int, x as int, ink).plots,
            painter.palette() == old(painter).palette(),
        decreases b - x,
    {
        painter.draw(x, y, color);
        proof {
            lemma_run_grows(base, c, y, a as int, x as int, ink);
        }
        x = x + 1;
    }
    proof {
        if b <= a {
            lemma_run_empty(base, c, y, a as int, b as int, ink);
        }
    }
}

/// Plots the pixels from `a` up to, not including, `b` on row `y`, each in
/// the colour of the road at its lateral coordinate: column 0 lies at `tx0`,
/// and the columns are `tx_step` apart.
pub(crate) fn paint_road<P: Painter>(
    painter: &mut P,
    y: i32,
    a: i32,
    b: i32,
    tx0: i32,
    tx_step: i32,
    t: i32,
    Ghost(base): Ghost<Seq<Plot<P::ColorType>>>,
    Ghost(c): Ghost<Canvas<P::ColorType>>,
)
    requires
        old(painter).plots() == base + c.plots,
    ensures
        final(painter).plots() == base + c.fill(
            y,
            a as int,
            b as int,
            Ink::Road { tint: old(painter).palette().road, tx0, step: tx_step, t },
        ).plots,
        final(painter).palette() == old(painter).palette(),
{
    let ghost ink = Ink::Road { tint: old(painter).palette().road, tx0, step: tx_step, t };
    let mut x: i32 = a;
    let mut tx: i32 = wadd(tx0, wmul(tx_step, a));
    proof {
        lemma_run_empty(base, c, y, a as int, a as int, ink);
        lemma_wrap_add_inner(tx_step * a, tx0 as int);
    }
    while x < b
        invariant
            a <= x,
            x <= b || x == a,
            ink == (Ink::Road { tint: old(painter).palette().road, tx0, step: tx_step, t }),
            tx == lateral(tx0, tx_step, x as int),
            painter.plots() == base + c.fill(y, a as int, x as int, ink).plots,
            painter.palette() == old(painter).palette(),
        decreases b - x,
    {
        let color = painter.road_color(tx, t);
        painter.draw(x, y, &color);
        proof {
            lemma_run_grows(base, c, y, a as int, x as int, ink);
            lemma_wrap_add_inner(tx0 + tx_step * x, tx_step as int);
            assert(tx0 + tx_step * x + tx_step == tx0 + tx_step * (x + 1)) by (nonlinear_arith);
        }
        tx = wadd(tx, tx_step);
        x = x + 1;
    }
    proof {
        if b <= a {
            lemma_run_empty(base, c, y, a as int, b as int, ink);
        }
    }
}

/// Takes the wedge of an uphill shoulder on the left out of the rows from
/// `from_row` up: on each row the free pixels left of the cut become
/// ground, and the cut moves one column to the left per row.
pub(crate) fn carve_left<P: Painter>(
    painter: &mut P,
    horizon: &mut Vec<LineVisibility>,
    from_row: i32,
    cut: i64,
    color: &P::ColorType,
    Ghost(base): Ghost<Seq<Plot<P::ColorType>>>,
    Ghost(c): Ghost<Canvas<P::ColorType>>,
)
    requires
        on_canvas(old(painter), old(horizon), base, c),
        -1 <= from_row < old(horizon).len(),
        cut <= i32::MAX,
    ensures
        on_canvas(
            final(painter),
            final(horizon),
            base,
            wedge_left(c, from_row, cut as int, Ink::Plain(*color)),
        ),
        final(painter).palette() == old(painter).palette(),
        final(horizon).len() == old(horizon).len(),
{
    let ghost ink = Ink::Plain(*color);
    let ghost mut now = c;
    let mut r: i32 = from_row;
    let mut edge: i64 = cut;
    while r >= 0 && edge > 0
        invariant
            -1 <= r <= from_row,
            r < horizon.len(),
            horizon.len() == old(horizon).len(),
            edge <= i32::MAX,
            ink == Ink::Plain(*color),
            on_canvas(painter, horizon, base, now),
            wedge_left(now, r, edge as int, ink) == wedge_left(c, from_row, cut as int, ink),
            painter.palette() == old(painter).palette(),
        decreases r + 1,
    {
        let line: LineVisibility = horizon[r as usize];
        let stop: i32 = clamp_to(edge, line.begin, line.end);
        paint_run(painter, r, line.begin, stop, color, Ghost(base), Ghost(now));
        horizon.set(r as usize, LineVisibility { road: line.road, begin: stop, end: line.end });
        proof {
            now = now.take_left(r, edge as int, ink);
        }
        r = r - 1;
        edge = edge - 1;
    }
}

/// Takes the wedge of an uphill shoulder on the right out of the rows from
/// `from_row` up: on each row the free pixels at or right of the cut become
/// ground, and the cut moves one column to the right per row.
pub(crate) fn carve_right<P: Painter>(
    painter: &mut P,
    horizon: &mut Vec<LineVisibility>,
    from_row: i32,
    cut: i64,
    w: i32,
    color: &P::ColorType,
    Ghost(base): Ghost<Seq<Plot<P::ColorType>>>,
    Ghost(c): Ghost<Canvas<P::ColorType>>,
)
    requires
        on_canvas(old(painter), old(horizon), base, c),
        -1 <= from_row < old(horizon).len(),
        i32::MIN <= cut,
    ensures
        on_canvas(
            final(painter),
            final(horizon),
            base,
            wedge_right(c, from_row, cut as int, w, Ink::Plain(*color)),
        ),
        final(painter).palette() == old(painter).palette(),
        final(horizon).len() == old(horizon).len(),
{
    let ghost ink = Ink::Plain(*color);
    let ghost mut now = c;
    let mut r: i32 = from_row;
    let mut edge: i64 = cut;
    while r >= 0 && edge < w as i64
        invariant
            -1 <= r <= from_row,
            r < horizon.len(),
            horizon.len() == old(horizon).len(),
            i32::MIN <= edge,
            ink == Ink::Plain(*color),
            on_canvas(painter, horizon, base, now),
            wedge_right(now, r, edge as int, w, ink) == wedge_right(
                c,
                from_row,
                cut as int,
                w,
                ink,
            ),
            painter.palette() == old(painter).palette(),
        decreases r + 1,
    {
        let line: LineVisibility = horizon[r as usize];
        let start: i32 = clamp_to(edge, line.begin, line.end);
        paint_run(painter, r, start, line.end, color, Ghost(base), Ghost(now));
        horizon.set(r as usize, LineVisibility { road: line.road, begin: line.begin, end: start });
        proof {
            now = now.take_right(r, edge as int, ink);
        }
        r = r - 1;
        edge = edge + 1;
    }
}

} // verus!
