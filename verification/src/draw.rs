//! Rasterization: single pixels, filled squares, thin and wide lines.
//!
//! Every primitive paints one colour onto a set of pixels, and its contract
//! names that set as a function of the arguments alone. A write that falls
//! outside the grid lands on the nearest edge pixel.

use vstd::prelude::*;
use crate::canvas::{canvas, clamp_x, clamp_y, clamped, lemma_canvas_pixel, lemma_canvas_shape, lemma_paint_empty, lemma_paint_union, on_canvas, paint, Color, Data, Pixel};
use crate::consts::{DRAWPAD_H, DRAWPAD_W};
use crate::threshold::{compute_fill_threshold, fill_threshold};

verus! {

/// The pixels that a block of writes lands on: every `(x, y)` with
/// `left <= x < right` and `top <= y < bottom`, clipped to the grid.
pub open spec fn rect_pixels(left: int, right: int, top: int, bottom: int) -> Set<Pixel> {
    Set::new(
        |p: Pixel|
            exists|x: int, y: int|
                left <= x < right && top <= y < bottom && p == #[trigger] clamped(x, y),
    )
}

/// The pixels of the square brush of side `w` centred at `c`: `w` columns
/// and `w` rows, clipped to the grid. The block reaches `w / 2` to the left
/// and above the centre; where `w` is odd the centre is its middle, where
/// `w` is even the centre is the first pixel of its right and lower half.
pub open spec fn square_pixels(c: (u8, u8), w: u8) -> Set<Pixel> {
    rect_pixels(c.0 - w / 2, c.0 + (w + 1) / 2, c.1 - w / 2, c.1 + (w + 1) / 2)
}

/// Whether the pixel `(x, y)` lies in the box that the block of
/// [`rect_pixels`] covers on the grid: between the first and the last of its
/// columns and between the first and the last of its rows, each clipped to
/// the grid.
pub open spec fn in_rect(left: int, right: int, top: int, bottom: int, x: int, y: int) -> bool {
    &&& left < right
    &&& top < bottom
    &&& clamp_x(left) <= x <= clamp_x(right - 1)
    &&& clamp_y(top) <= y <= clamp_y(bottom - 1)
}

/// A clipped block is a box on the grid.
pub proof fn lemma_rect_is_a_box(left: int, right: int, top: int, bottom: int)
    ensures
        forall|x: int, y: int|
            rect_pixels(left, right, top, bottom).contains((x, y)) <==> in_rect(
                left,
                right,
                top,
                bottom,
                x,
                y,
            ),
{
    let r = rect_pixels(left, right, top, bottom);
    assert forall|x: int, y: int| r.contains((x, y)) implies in_rect(
        left,
        right,
        top,
        bottom,
        x,
        y,
    ) by {
        let (u, v) = choose|u: int, v: int|
            left <= u < right && top <= v < bottom && (x, y) == #[trigger] clamped(u, v);
    }
    assert forall|x: int, y: int| in_rect(left, right, top, bottom, x, y) implies r.contains(
        (x, y),
    ) by {
        let u = if left <= x < right {
            x
        } else if x < left {
            left
        } else {
            right - 1
        };
        let v = if top <= y < bottom {
            y
        } else if y < top {
            top
        } else {
            bottom - 1
        };
        assert((x, y) == clamped(u, v));
    }
}

/// A block with no column or no row holds no pixel.
pub proof fn lemma_rect_empty(left: int, right: int, top: int, bottom: int)
    requires
        left >= right || top >= bottom,
    ensures
        rect_pixels(left, right, top, bottom) == Set::<Pixel>::empty(),
{
    assert(rect_pixels(left, right, top, bottom) =~= Set::<Pixel>::empty());
}

/// A block is its first columns together with its last column.
pub proof fn lemma_rect_add_column(left: int, right: int, top: int, bottom: int)
    requires
        left <= right,
    ensures
        rect_pixels(left, right + 1, top, bottom) == rect_pixels(left, right, top, bottom).union(
            rect_pixels(right, right + 1, top, bottom),
        ),
{
    let whole = rect_pixels(left, right + 1, top, bottom);
    let parts = rect_pixels(left, right, top, bottom).union(
        rect_pixels(right, right + 1, top, bottom),
    );
    assert forall|p: Pixel| whole.contains(p) implies parts.contains(p) by {
        let (x, y) = choose|x: int, y: int|
            left <= x < right + 1 && top <= y < bottom && p == #[trigger] clamped(x, y);
        if x < right {
            assert(rect_pixels(left, right, top, bottom).contains(clamped(x, y)));
        } else {
            assert(rect_pixels(right, right + 1, top, bottom).contains(clamped(x, y)));
        }
    }
    assert forall|p: Pixel| parts.contains(p) implies whole.contains(p) by {
        if rect_pixels(left, right, top, bottom).contains(p) {
            let (x, y) = choose|x: int, y: int|
                left <= x < right && top <= y < bottom && p == #[trigger] clamped(x, y);
            assert(whole.contains(clamped(x, y)));
        } else {
            let (x, y) = choose|x: int, y: int|
                right <= x < right + 1 && top <= y < bottom && p == #[trigger] clamped(x, y);
            assert(whole.contains(clamped(x, y)));
        }
    }
    assert(whole =~= parts);
}

/// A column is its first rows together with its last pixel.
pub proof fn lemma_rect_add_pixel(x: int, top: int, bottom: int)
    requires
        top <= bottom,
    ensures
        rect_pixels(x, x + 1, top, bottom + 1) == rect_pixels(x, x + 1, top, bottom).union(
            set![clamped(x, bottom)],
        ),
{
    let whole = rect_pixels(x, x + 1, top, bottom + 1);
    let parts = rect_pixels(x, x + 1, top, bottom).union(set![clamped(x, bottom)]);
    assert forall|p: Pixel| whole.contains(p) implies parts.contains(p) by {
        let (u, v) = choose|u: int, v: int|
            x <= u < x + 1 && top <= v < bottom + 1 && p == #[trigger] clamped(u, v);
        if v < bottom {
            assert(rect_pixels(x, x + 1, top, bottom).contains(clamped(u, v)));
        }
    }
    assert forall|p: Pixel| parts.contains(p) implies whole.contains(p) by {
        if rect_pixels(x, x + 1, top, bottom).contains(p) {
            let (u, v) = choose|u: int, v: int|
                x <= u < x + 1 && top <= v < bottom && p == #[trigger] clamped(u, v);
            assert(whole.contains(clamped(u, v)));
        } else {
            assert(whole.contains(clamped(x, bottom)));
        }
    }
    assert(whole =~= parts);
}

/// Relates a grid before and after one pixel was written.
proof fn lemma_write(before: Data, after: Data, x: int, y: int, color: Color)
    requires
        on_canvas(x, y),
        after[x][y] == color,
        forall|u: int, v: int|
            on_canvas(u, v) && (u != x || v != y) ==> #[trigger] after[u][v] == before[u][v],
    ensures
        canvas(after) == paint(canvas(before), set![(x, y)], color),
{
    let l = canvas(after);
    let r = paint(canvas(before), set![(x, y)], color);
    assert forall|u: int| 0 <= u < DRAWPAD_W implies #[trigger] l[u] == r[u] by {
        assert forall|v: int| 0 <= v < DRAWPAD_H implies l[u][v] == r[u][v] by {
            lemma_canvas_pixel(after, u, v);
            lemma_canvas_pixel(before, u, v);
            if u == x && v == y {
                assert(set![(x, y)].contains((u, v)));
            } else {
                assert(!set![(x, y)].contains((u, v)));
                assert(after[u][v] == before[u][v]);
            }
        }
        assert(l[u] =~= r[u]);
    }
    assert(l =~= r);
}

/// Paints the pixel at `c`, which the caller keeps on the grid.
#[inline]
pub fn point(data: &mut Data, c: (u8, u8), color: Color)
    requires
        on_canvas(c.0 as int, c.1 as int),
    ensures
        canvas(*final(data)) == paint(canvas(*old(data)), set![(c.0 as int, c.1 as int)], color),
{
    let (x, y) = c;
    data[x as usize][y as usize] = color;
    proof {
        lemma_write(*old(data), *data, x as int, y as int, color);
    }
}

/// Paints the pixel nearest to `(x, y)` on the grid.
fn set_clamped(data: &mut Data, x: i32, y: i32, color: Color)
    ensures
        canvas(*final(data)) == paint(canvas(*old(data)), set![clamped(x as int, y as int)], color),
{
    let y: i32 = if y < 0 {
        0
    } else if y > DRAWPAD_H as i32 - 1 {
        DRAWPAD_H as i32 - 1
    } else {
        y
    };
    let x: i32 = if x < 0 {
        0
    } else if x > DRAWPAD_W as i32 - 1 {
        DRAWPAD_W as i32 - 1
    } else {
        x
    };
    data[x as usize][y as usize] = color;
    proof {
        lemma_write(*old(data), *data, x as int, y as int, color);
    }
}

/// Paints the pixel nearest to `(x, y)` on the grid: a coordinate below 0
/// counts as 0, one beyond the last column or row as the last.
#[inline]
pub fn set_color_safe(data: &mut Data, x: i16, y: i16, color: Color)
    ensures
        canvas(*final(data)) == paint(canvas(*old(data)), set![clamped(x as int, y as int)], color),
{
    set_clamped(data, x as i32, y as i32, color);
}

/// A square brush of side 1 or more holds its centre.
pub proof fn lemma_square_holds_its_centre(c: (u8, u8), w: u8)
    requires
        w >= 1,
    ensures
        square_pixels(c, w).contains(clamped(c.0 as int, c.1 as int)),
{
}

/// Paints the square brush of side `w` centred at `c`: a box of `w` by `w`
/// pixels on the grid, clipped at its edges.
#[inline]
pub fn fill_square(data: &mut Data, c: (u8, u8), w: u8, color: Color)
    ensures
        canvas(*final(data)) == paint(canvas(*old(data)), square_pixels(c, w), color),
        forall|x: int, y: int|
            square_pixels(c, w).contains((x, y)) <==> in_rect(
                c.0 - w / 2,
                c.0 + (w + 1) / 2,
                c.1 - w / 2,
                c.1 + (w + 1) / 2,
                x,
                y,
            ),
        w >= 1 ==> square_pixels(c, w).contains(clamped(c.0 as int, c.1 as int)),
{
    proof {
        lemma_rect_is_a_box(c.0 - w / 2, c.0 + (w + 1) / 2, c.1 - w / 2, c.1 + (w + 1) / 2);
        if w >= 1 {
            lemma_square_holds_its_centre(c, w);
        }
    }
    let before: i16 = (w / 2) as i16;
    let after: i16 = (w as i16 + 1) / 2;
    let left: i16 = (c.0 as i16) - before;
    let right: i16 = (c.0 as i16) + after;
    let top: i16 = (c.1 as i16) - before;
    let bottom: i16 = (c.1 as i16) + after;
    let ghost start = canvas(*data);
    proof {
        lemma_canvas_shape(*data);
        lemma_rect_empty(left as int, left as int, top as int, bottom as int);
        lemma_paint_empty(start, color);
    }
    let mut x: i16 = left;
    while x < right
        invariant
            left <= x <= right,
            top <= bottom,
            -128 <= top,
            bottom <= 400,
            right <= 400,
            canvas(*data) == paint(
                start,
                rect_pixels(left as int, x as int, top as int, bottom as int),
                color,
            ),
        decreases right - x,
    {
        let ghost column_start = canvas(*data);
        proof {
            lemma_canvas_shape(*data);
            lemma_rect_empty(x as int, x + 1, top as int, top as int);
            lemma_paint_empty(column_start, color);
        }
        let mut y: i16 = top;
        while y < bottom
            invariant
                top <= y <= bottom,
                bottom <= 400,
                canvas(*data) == paint(
                    column_start,
                    rect_pixels(x as int, x + 1, top as int, y as int),
                    color,
                ),
            decreases bottom - y,
        {
            set_color_safe(data, x, y, color);
            proof {
                lemma_rect_add_pixel(x as int, top as int, y as int);
                lemma_paint_union(
                    column_start,
                    rect_pixels(x as int, x + 1, top as int, y as int),
                    set![clamped(x as int, y as int)],
                    color,
                );
            }
            y = y + 1;
        }
        proof {
            lemma_rect_add_column(left as int, x as int, top as int, bottom as int);
            lemma_paint_union(
                start,
                rect_pixels(left as int, x as int, top as int, bottom as int),
                rect_pixels(x as int, x + 1, top as int, bottom as int),
                color,
            );
        }
        x = x + 1;
    }
}

/// A line between two points: where it ends, how far it reaches along each
/// axis, and in which direction each coordinate moves.
pub struct Span {
    pub x1: int,
    pub y1: int,
    pub dx: int,
    pub dy: int,
    pub sx: int,
    pub sy: int,
}

/// The span of the line from `c0` to `c1`.
pub open spec fn span(c0: (u8, u8), c1: (u8, u8)) -> Span {
    Span {
        x1: c1.0 as int,
        y1: c1.1 as int,
        dx: if c0.0 > c1.0 {
            c0.0 - c1.0
        } else {
            c1.0 - c0.0
        },
        dy: if c0.1 > c1.1 {
            c0.1 - c1.1
        } else {
            c1.1 - c0.1
        },
        sx: if c0.0 < c1.0 {
            1
        } else {
            -1
        },
        sy: if c0.1 < c1.1 {
            1
        } else {
            -1
        },
    }
}

/// The error term that a thin line starts with: half the longer reach,
/// rounded towards zero, negative when the line is not wider than tall.
pub open spec fn line_start_err(s: Span) -> int {
    if s.dx > s.dy {
        s.dx / 2
    } else {
        -(s.dy / 2)
    }
}

/// A position of the stepping and its error term.
pub struct Walk {
    pub x: int,
    pub y: int,
    pub err: int,
}

/// How many moves lead from `from` to `to` in the direction `dir`.
pub open spec fn moved(from: int, to: int, dir: int) -> int {
    if dir == 1 {
        to - from
    } else {
        from - to
    }
}

/// The least of two coordinates.
pub open spec fn lower(a: int, b: int) -> int {
    if a < b {
        a
    } else {
        b
    }
}

/// The greatest of two coordinates.
pub open spec fn upper(a: int, b: int) -> int {
    if a < b {
        b
    } else {
        a
    }
}

/// One step of a thin line. The coordinate along the longer reach moves at
/// every step, and both do where the reaches are equal. The coordinate
/// along the shorter reach moves when twice the error term allows it: `x`
/// when that exceeds `-dx`, `y` when it is below `dy`. A move in `x` lowers
/// the error term by `dy`, one in `y` raises it by `dx`.
pub open spec fn line_next(s: Span, p: Walk) -> Walk {
    let step_x = s.dx >= s.dy || 2 * p.err > -s.dx;
    let step_y = s.dy >= s.dx || 2 * p.err < s.dy;
    Walk {
        x: if step_x {
            p.x + s.sx
        } else {
            p.x
        },
        y: if step_y {
            p.y + s.sy
        } else {
            p.y
        },
        err: p.err - (if step_x {
            s.dy
        } else {
            0
        }) + (if step_y {
            s.dx
        } else {
            0
        }),
    }
}

/// Where the thin line from `c0` to `c1` starts.
pub open spec fn line_start(c0: (u8, u8), c1: (u8, u8)) -> Walk {
    Walk { x: c0.0 as int, y: c0.1 as int, err: line_start_err(span(c0, c1)) }
}

/// The number of steps of the thin line from `c0` to `c1`: its longer
/// reach.
pub open spec fn line_steps(c0: (u8, u8), c1: (u8, u8)) -> nat {
    upper(span(c0, c1).dx, span(c0, c1).dy) as nat
}

/// Where the thin line from `c0` to `c1` is after `i` steps.
pub open spec fn line_at(c0: (u8, u8), c1: (u8, u8), i: nat) -> Walk
    decreases i,
{
    if i == 0 {
        line_start(c0, c1)
    } else {
        line_next(span(c0, c1), line_at(c0, c1, (i - 1) as nat))
    }
}

/// The pixels of the first `n` positions of the thin line from `c0` to
/// `c1`, clipped to the grid.
pub open spec fn line_prefix(c0: (u8, u8), c1: (u8, u8), n: int) -> Set<Pixel> {
    Set::new(
        |p: Pixel|
            exists|i: nat|
                i < n && p == clamped((#[trigger] line_at(c0, c1, i)).x, line_at(c0, c1, i).y),
    )
}

/// The pixels of the one-pixel line from `c0` to `c1`: one for the start and
/// one for each step along the longer reach, clipped to the grid.
pub open spec fn line_pixels(c0: (u8, u8), c1: (u8, u8)) -> Set<Pixel> {
    line_prefix(c0, c1, line_steps(c0, c1) as int + 1)
}

/// A position that has made `a` of the `dx` moves in `x` and `b` of the `dy`
/// moves in `y` has not reached the end unless both are complete, and the
/// error term then forbids a move along an axis that is complete.
proof fn lemma_line_step(dx: int, dy: int, e0: int, a: int, b: int, err: int)
    requires
        0 <= a <= dx,
        0 <= b <= dy,
        a < dx || b < dy,
        2 * e0 <= dx,
        2 * e0 >= -dy,
        err == e0 - a * dy + b * dx,
    ensures
        2 * err > -dx || 2 * err < dy,
        2 * err > -dx ==> a < dx,
        2 * err < dy ==> b < dy,
{
    if a == dx {
        assert(dx * (dy - b) >= dx) by (nonlinear_arith)
            requires
                dy - b >= 1,
                dx >= 0,
        ;
        assert(dx * (dy - b) == dx * dy - b * dx) by (nonlinear_arith);
        assert(a * dy == dx * dy) by (nonlinear_arith)
            requires
                a == dx,
        ;
    }
    if b == dy {
        assert(dy * (dx - a) >= dy) by (nonlinear_arith)
            requires
                dx - a >= 1,
                dy >= 0,
        ;
        assert(dy * (dx - a) == dy * dx - a * dy) by (nonlinear_arith);
        assert(b * dx == dy * dx) by (nonlinear_arith)
            requires
                b == dy,
        ;
    }
}

/// Where a thin line is after `i` of its steps. Along the longer reach it
/// has made `i` moves, along the shorter no more than that reach; its error
/// term is the one it started with, less `dy` for every move in `x`, plus
/// `dx` for every move in `y`; and after the last step it is at its end.
pub proof fn lemma_line_walk(c0: (u8, u8), c1: (u8, u8), i: nat)
    requires
        i <= line_steps(c0, c1),
    ensures
        ({
            let s = span(c0, c1);
            let p = line_at(c0, c1, i);
            let a = moved(c0.0 as int, p.x, s.sx);
            let b = moved(c0.1 as int, p.y, s.sy);
            &&& 0 <= a <= s.dx
            &&& 0 <= b <= s.dy
            &&& s.dx >= s.dy ==> a == i
            &&& s.dy >= s.dx ==> b == i
            &&& p.err == line_start_err(s) - a * s.dy + b * s.dx
            &&& -2 * s.dy <= 2 * p.err <= 2 * s.dx
            &&& s.dx > s.dy ==> 2 * p.err >= -s.dy
            &&& s.dy > s.dx ==> 2 * p.err <= s.dx
            &&& i == line_steps(c0, c1) ==> p.x == c1.0 && p.y == c1.1
            &&& lower(c0.0 as int, c1.0 as int) <= p.x <= upper(c0.0 as int, c1.0 as int)
            &&& lower(c0.1 as int, c1.1 as int) <= p.y <= upper(c0.1 as int, c1.1 as int)
        }),
    decreases i,
{
    let s = span(c0, c1);
    let e0 = line_start_err(s);
    let p = line_at(c0, c1, i);
    let a = moved(c0.0 as int, p.x, s.sx);
    let b = moved(c0.1 as int, p.y, s.sy);
    if i == 0 {
        assert(0 * s.dy == 0 && 0 * s.dx == 0) by (nonlinear_arith);
    } else {
        lemma_line_walk(c0, c1, (i - 1) as nat);
        let q = line_at(c0, c1, (i - 1) as nat);
        let qa = moved(c0.0 as int, q.x, s.sx);
        let qb = moved(c0.1 as int, q.y, s.sy);
        assert(qa < s.dx || qb < s.dy);
        lemma_line_step(s.dx, s.dy, e0, qa, qb, q.err);
        assert((qa + 1) * s.dy == qa * s.dy + s.dy) by (nonlinear_arith);
        assert((qb + 1) * s.dx == qb * s.dx + s.dx) by (nonlinear_arith);
        assert(p == line_next(s, q));
    }
    if i == line_steps(c0, c1) {
        if a < s.dx || b < s.dy {
            lemma_line_step(s.dx, s.dy, e0, a, b, p.err);
        }
    }
}

/// A thin line has one position for each step along its longer reach: after
/// `i` steps it has moved `i` places along that reach.
pub proof fn lemma_line_moves_along_its_longer_reach(c0: (u8, u8), c1: (u8, u8))
    ensures
        forall|i: nat|
            i <= line_steps(c0, c1) && span(c0, c1).dx >= span(c0, c1).dy ==> moved(
                c0.0 as int,
                (#[trigger] line_at(c0, c1, i)).x,
                span(c0, c1).sx,
            ) == i,
        forall|i: nat|
            i <= line_steps(c0, c1) && span(c0, c1).dy >= span(c0, c1).dx ==> moved(
                c0.1 as int,
                (#[trigger] line_at(c0, c1, i)).y,
                span(c0, c1).sy,
            ) == i,
{
    assert forall|i: nat|
        i <= line_steps(c0, c1) && span(c0, c1).dx >= span(c0, c1).dy implies moved(
        c0.0 as int,
        (#[trigger] line_at(c0, c1, i)).x,
        span(c0, c1).sx,
    ) == i by {
        lemma_line_walk(c0, c1, i);
    }
    assert forall|i: nat|
        i <= line_steps(c0, c1) && span(c0, c1).dy >= span(c0, c1).dx implies moved(
        c0.1 as int,
        (#[trigger] line_at(c0, c1, i)).y,
        span(c0, c1).sy,
    ) == i by {
        lemma_line_walk(c0, c1, i);
    }
}

/// A thin line holds both its end points.
pub proof fn lemma_line_holds_its_ends(c0: (u8, u8), c1: (u8, u8))
    ensures
        line_pixels(c0, c1).contains(clamped(c0.0 as int, c0.1 as int)),
        line_pixels(c0, c1).contains(clamped(c1.0 as int, c1.1 as int)),
{
    let n = line_steps(c0, c1);
    lemma_line_walk(c0, c1, n);
    let first = line_at(c0, c1, 0);
    let last = line_at(c0, c1, n);
    assert(line_pixels(c0, c1).contains(clamped(first.x, first.y)));
    assert(line_pixels(c0, c1).contains(clamped(last.x, last.y)));
}

/// A thin line stays in the box that its end points span.
pub proof fn lemma_line_stays_between_its_ends(c0: (u8, u8), c1: (u8, u8))
    ensures
        forall|x: int, y: int|
            line_pixels(c0, c1).contains((x, y)) ==> in_rect(
                lower(c0.0 as int, c1.0 as int),
                upper(c0.0 as int, c1.0 as int) + 1,
                lower(c0.1 as int, c1.1 as int),
                upper(c0.1 as int, c1.1 as int) + 1,
                x,
                y,
            ),
{
    let left = lower(c0.0 as int, c1.0 as int);
    let right = upper(c0.0 as int, c1.0 as int) + 1;
    let top = lower(c0.1 as int, c1.1 as int);
    let bottom = upper(c0.1 as int, c1.1 as int) + 1;
    lemma_rect_is_a_box(left, right, top, bottom);
    assert forall|x: int, y: int| line_pixels(c0, c1).contains((x, y)) implies in_rect(
        left,
        right,
        top,
        bottom,
        x,
        y,
    ) by {
        let i = choose|i: nat|
            i < line_steps(c0, c1) + 1 && (x, y) == clamped(
                (#[trigger] line_at(c0, c1, i)).x,
                line_at(c0, c1, i).y,
            );
        lemma_line_walk(c0, c1, i);
        let p = line_at(c0, c1, i);
        assert(rect_pixels(left, right, top, bottom).contains(clamped(p.x, p.y)));
    }
}

/// The first `n + 1` positions are the first `n` and the one after them.
proof fn lemma_line_prefix_grows(c0: (u8, u8), c1: (u8, u8), n: nat)
    ensures
        line_prefix(c0, c1, n as int + 1) == line_prefix(c0, c1, n as int).union(
            set![clamped(line_at(c0, c1, n).x, line_at(c0, c1, n).y)],
        ),
        line_prefix(c0, c1, 0) == Set::<Pixel>::empty(),
{
    let more = line_prefix(c0, c1, n as int + 1);
    let fewer = line_prefix(c0, c1, n as int);
    let last = clamped(line_at(c0, c1, n).x, line_at(c0, c1, n).y);
    assert forall|p: Pixel| more.contains(p) implies fewer.union(set![last]).contains(p) by {
        let i = choose|i: nat|
            i < n + 1 && p == clamped((#[trigger] line_at(c0, c1, i)).x, line_at(c0, c1, i).y);
        if i < n {
            assert(fewer.contains(p));
        }
    }
    assert forall|p: Pixel| fewer.union(set![last]).contains(p) implies more.contains(p) by {
        if fewer.contains(p) {
            let i = choose|i: nat|
                i < n && p == clamped((#[trigger] line_at(c0, c1, i)).x, line_at(c0, c1, i).y);
            assert(i < n + 1);
        } else {
            assert(p == clamped(line_at(c0, c1, n).x, line_at(c0, c1, n).y));
        }
    }
    assert(more =~= fewer.union(set![last]));
    assert(line_prefix(c0, c1, 0) =~= Set::<Pixel>::empty());
}

/// Paints the one-pixel line from `c0` to `c1` by integer error stepping:
/// one pixel for the start and one for each step along the longer reach.
/// Both end points are painted, and nothing outside the box that they span;
/// a write beyond the grid lands on its edge.
pub fn line(data: &mut Data, c0: (u8, u8), c1: (u8, u8), color: Color)
    ensures
        canvas(*final(data)) == paint(canvas(*old(data)), line_pixels(c0, c1), color),
        line_pixels(c0, c1).contains(clamped(c0.0 as int, c0.1 as int)),
        line_pixels(c0, c1).contains(clamped(c1.0 as int, c1.1 as int)),
        forall|x: int, y: int|
            line_pixels(c0, c1).contains((x, y)) ==> in_rect(
                lower(c0.0 as int, c1.0 as int),
                upper(c0.0 as int, c1.0 as int) + 1,
                lower(c0.1 as int, c1.1 as int),
                upper(c0.1 as int, c1.1 as int) + 1,
                x,
                y,
            ),
        forall|i: nat|
            i <= line_steps(c0, c1) && span(c0, c1).dx >= span(c0, c1).dy ==> moved(
                c0.0 as int,
                (#[trigger] line_at(c0, c1, i)).x,
                span(c0, c1).sx,
            ) == i,
        forall|i: nat|
            i <= line_steps(c0, c1) && span(c0, c1).dy >= span(c0, c1).dx ==> moved(
                c0.1 as int,
                (#[trigger] line_at(c0, c1, i)).y,
                span(c0, c1).sy,
            ) == i,
{
    proof {
        lemma_line_holds_its_ends(c0, c1);
        lemma_line_stays_between_its_ends(c0, c1);
        lemma_line_moves_along_its_longer_reach(c0, c1);
    }
    let (x0, y0) = c0;
    let (x1, y1) = c1;

    let x1: i32 = x1 as i32;
    let y1: i32 = y1 as i32;

    let mut x0: i32 = x0 as i32;
    let mut y0: i32 = y0 as i32;

    let dx: i32 = if x0 > x1 {
        x0 - x1
    } else {
        x1 - x0
    };
    let dy: i32 = if y0 > y1 {
        y0 - y1
    } else {
        y1 - y0
    };

    let sx: i32 = if x0 < x1 {
        1
    } else {
        -1
    };
    let sy: i32 = if y0 < y1 {
        1
    } else {
        -1
    };

    let mut err: i32 = if dx > dy {
        dx / 2
    } else {
        -(dy / 2)
    };

    let ghost s = span(c0, c1);
    let ghost start = canvas(*data);
    let ghost steps = line_steps(c0, c1);
    let ghost mut i: nat = 0;
    proof {
        lemma_line_prefix_grows(c0, c1, 0);
        lemma_canvas_shape(*data);
        lemma_paint_empty(start, color);
    }

    loop
        invariant_except_break
            s == span(c0, c1),
            steps == line_steps(c0, c1),
            s.dx == dx,
            s.dy == dy,
            s.sx == sx,
            s.sy == sy,
            x1 == c1.0,
            y1 == c1.1,
            i <= steps,
            line_at(c0, c1, i) == (Walk { x: x0 as int, y: y0 as int, err: err as int }),
            canvas(*data) == paint(start, line_prefix(c0, c1, i as int), color),
        ensures
            canvas(*data) == paint(start, line_pixels(c0, c1), color),
        decreases steps - i,
    {
        proof {
            lemma_line_walk(c0, c1, i);
            lemma_line_prefix_grows(c0, c1, i);
            lemma_paint_union(
                start,
                line_prefix(c0, c1, i as int),
                set![clamped(x0 as int, y0 as int)],
                color,
            );
        }
        set_clamped(data, x0, y0, color);

        if x0 == x1 && y0 == y1 {
            break ;
        }
        proof {
            lemma_line_walk(c0, c1, (i + 1) as nat);
        }
        let err2: i32 = 2 * err;

        if dx >= dy || err2 > -dx {
            err -= dy;
            x0 += sx;
        }
        if dy >= dx || err2 < dy {
            err += dx;
            y0 += sy;
        }
        proof {
            i = i + 1;
        }
    }
}

/// The span of the wide line from `c0` to `c1`. Along an axis on which the
/// two points agree the direction is `1`.
pub open spec fn wide_span(c0: (u8, u8), c1: (u8, u8)) -> Span {
    Span {
        x1: c1.0 as int,
        y1: c1.1 as int,
        dx: if c0.0 > c1.0 {
            c0.0 - c1.0
        } else {
            c1.0 - c0.0
        },
        dy: if c0.1 > c1.1 {
            c0.1 - c1.1
        } else {
            c1.1 - c0.1
        },
        sx: if c0.0 > c1.0 {
            -1
        } else {
            1
        },
        sy: if c0.1 > c1.1 {
            -1
        } else {
            1
        },
    }
}

/// The distance between two coordinates.
pub open spec fn distance(a: int, b: int) -> int {
    if a > b {
        a - b
    } else {
        b - a
    }
}

/// The pixels of one side fill. It starts beside `(x, y)` and moves by
/// `(ux, uy)` from pixel to pixel, its error term `e` growing by `inc` with
/// each. A `free` fill runs while the error term is below the threshold `t`;
/// one that is not free also ends after `togo` pixels, in line with the end
/// of the segment.
pub open spec fn run_pixels(
    t: int,
    e: int,
    inc: int,
    x: int,
    y: int,
    ux: int,
    uy: int,
    togo: int,
    free: bool,
) -> Set<Pixel>
    decreases
            (if !free {
                togo
            } else if e < t {
                t - e
            } else {
                0
            }),
{
    if e < t && (if free {
        inc > 0
    } else {
        togo > 0
    }) {
        set![clamped(x + ux, y + uy)].union(
            run_pixels(t, e + inc, inc, x + ux, y + uy, ux, uy, togo - 1, free),
        )
    } else {
        Set::empty()
    }
}

/// The pixels that the wide stepping paints from the position `(x, y)` with
/// error term `err` until the end of `s`, in at most `fuel` more steps.
///
/// Each step paints the current position. When twice the error term is at
/// least `-dx`, it fills sideways along `y`, free if the segment is wider
/// than tall, and then, unless `x` has arrived, moves in `x`. When twice the
/// error term (as it was before that move) is at most `dy`, it fills sideways
/// along `x` from the column it was in, free if the segment is taller than
/// wide, and then, unless `y` has arrived, moves in `y`. The stepping ends
/// where a move is due along an axis that has arrived.
pub open spec fn wide_rest(s: Span, t: int, x: int, y: int, err: int, fuel: nat) -> Set<Pixel>
    decreases fuel,
{
    let here = set![clamped(x, y)];
    let step_x = 2 * err >= -s.dx;
    let step_y = 2 * err <= s.dy;
    let side_y = if step_x {
        run_pixels(t, err + s.dy, s.dx, x, y, 0, s.sy, distance(s.y1, y), s.dx > s.dy)
    } else {
        Set::empty()
    };
    if step_x && x == s.x1 {
        here.union(side_y)
    } else {
        let side_x = if step_y {
            run_pixels(t, s.dx, s.dy, x, y, s.sx, 0, distance(s.x1, x), s.dx < s.dy)
        } else {
            Set::empty()
        };
        let painted = here.union(side_y).union(side_x);
        if (step_y && y == s.y1) || fuel == 0 {
            painted
        } else {
            let x2 = if step_x {
                x + s.sx
            } else {
                x
            };
            let y2 = if step_y {
                y + s.sy
            } else {
                y
            };
            let err2 = err - (if step_x {
                s.dy
            } else {
                0
            }) + (if step_y {
                s.dx
            } else {
                0
            });
            painted.union(wide_rest(s, t, x2, y2, err2, (fuel - 1) as nat))
        }
    }
}

/// The pixels of the line of width `w` from `c0` to `c1`: the square brush
/// at both ends, and between them the stepping with its side fills.
pub open spec fn wide_line_pixels(c0: (u8, u8), c1: (u8, u8), w: u8) -> Set<Pixel> {
    let s = wide_span(c0, c1);
    square_pixels(c0, w).union(square_pixels(c1, w)).union(
        wide_rest(
            s,
            fill_threshold(s.dx, s.dy, w),
            c0.0 as int,
            c0.1 as int,
            s.dx - s.dy,
            (s.dx + s.dy) as nat,
        ),
    )
}

/// Where the wide stepping finds a move due along an axis that has arrived,
/// the other axis has arrived as well.
proof fn lemma_wide_stop(dx: int, dy: int, a: int, b: int, err: int)
    requires
        0 <= a <= dx,
        0 <= b <= dy,
        err == dx - dy - a * dy + b * dx,
        2 * err >= dx - 2 * dy || 2 * err >= 1 - dy,
        2 * err <= 2 * dx - dy || 2 * err <= dx - 1,
    ensures
        a == dx && 2 * err >= -dx ==> b == dy,
        b == dy && 2 * err <= dy ==> a == dx,
{
    if a == dx && b < dy {
        assert(dx * (dy - b) >= dx) by (nonlinear_arith)
            requires
                dy - b >= 1,
                dx >= 0,
        ;
        assert(dx * (dy - b) == dx * dy - b * dx) by (nonlinear_arith);
        assert(a * dy == dx * dy) by (nonlinear_arith)
            requires
                a == dx,
        ;
    }
    if b == dy && a < dx {
        assert(dy * (dx - a) >= dy) by (nonlinear_arith)
            requires
                dx - a >= 1,
                dy >= 0,
        ;
        assert(dy * (dx - a) == dy * dx - a * dy) by (nonlinear_arith);
        assert(b * dx == dy * dx) by (nonlinear_arith)
            requires
                b == dy,
        ;
    }
}

/// The wide stepping reaches the end of its span, and paints it.
proof fn lemma_wide_reaches_end(
    s: Span,
    t: int,
    x: int,
    y: int,
    err: int,
    fuel: nat,
    a: int,
    b: int,
)
    requires
        s.sx == 1 || s.sx == -1,
        s.sy == 1 || s.sy == -1,
        0 <= a <= s.dx,
        0 <= b <= s.dy,
        moved(x, s.x1, s.sx) == s.dx - a,
        moved(y, s.y1, s.sy) == s.dy - b,
        err == s.dx - s.dy - a * s.dy + b * s.dx,
        2 * err >= s.dx - 2 * s.dy || 2 * err >= 1 - s.dy,
        2 * err <= 2 * s.dx - s.dy || 2 * err <= s.dx - 1,
        fuel >= s.dx - a + s.dy - b,
    ensures
        wide_rest(s, t, x, y, err, fuel).contains(clamped(s.x1, s.y1)),
    decreases fuel,
{
    lemma_wide_stop(s.dx, s.dy, a, b, err);
    let here = set![clamped(x, y)];
    let step_x = 2 * err >= -s.dx;
    let step_y = 2 * err <= s.dy;
    assert(here.contains(clamped(x, y)));
    if step_x && x == s.x1 {
    } else if step_y && y == s.y1 {
    } else {
        assert(fuel > 0);
        let a2 = if step_x {
            a + 1
        } else {
            a
        };
        let b2 = if step_y {
            b + 1
        } else {
            b
        };
        let x2 = if step_x {
            x + s.sx
        } else {
            x
        };
        let y2 = if step_y {
            y + s.sy
        } else {
            y
        };
        let err2 = err - (if step_x {
            s.dy
        } else {
            0
        }) + (if step_y {
            s.dx
        } else {
            0
        });
        assert((a + 1) * s.dy == a * s.dy + s.dy) by (nonlinear_arith);
        assert((b + 1) * s.dx == b * s.dx + s.dx) by (nonlinear_arith);
        lemma_wide_reaches_end(s, t, x2, y2, err2, (fuel - 1) as nat, a2, b2);
    }
}

/// A wide line holds both its end points, whatever its width.
pub proof fn lemma_wide_line_holds_its_ends(c0: (u8, u8), c1: (u8, u8), w: u8)
    ensures
        wide_line_pixels(c0, c1, w).contains(clamped(c0.0 as int, c0.1 as int)),
        wide_line_pixels(c0, c1, w).contains(clamped(c1.0 as int, c1.1 as int)),
{
    let s = wide_span(c0, c1);
    let t = fill_threshold(s.dx, s.dy, w);
    let stepping = wide_rest(s, t, c0.0 as int, c0.1 as int, s.dx - s.dy, (s.dx + s.dy) as nat);
    assert(set![clamped(c0.0 as int, c0.1 as int)].contains(clamped(c0.0 as int, c0.1 as int)));
    assert(stepping.contains(clamped(c0.0 as int, c0.1 as int)));
    assert(0 * s.dy == 0 && 0 * s.dx == 0) by (nonlinear_arith);
    lemma_wide_reaches_end(
        s,
        t,
        c0.0 as int,
        c0.1 as int,
        s.dx - s.dy,
        (s.dx + s.dy) as nat,
        0,
        0,
    );
}

/// Paints one side fill.
fn fill_run(
    data: &mut Data,
    t: i32,
    e: i32,
    inc: i32,
    x: i32,
    y: i32,
    ux: i32,
    uy: i32,
    togo: i32,
    free: bool,
    color: Color,
)
    requires
        0 <= t <= 0x4_0000,
        -0x10_0000 <= e,
        0 <= inc <= 255,
        free ==> inc > 0,
        -1 <= ux <= 1,
        -1 <= uy <= 1,
        0 <= x <= 255,
        0 <= y <= 255,
        0 <= togo <= 255,
    ensures
        canvas(*final(data)) == paint(
            canvas(*old(data)),
            run_pixels(
                t as int,
                e as int,
                inc as int,
                x as int,
                y as int,
                ux as int,
                uy as int,
                togo as int,
                free,
            ),
            color,
        ),
{
    let ghost e0 = e;
    let ghost target = paint(
        canvas(*data),
        run_pixels(
            t as int,
            e as int,
            inc as int,
            x as int,
            y as int,
            ux as int,
            uy as int,
            togo as int,
            free,
        ),
        color,
    );
    let mut e: i32 = e;
    let mut x: i32 = x;
    let mut y: i32 = y;
    let mut togo: i32 = togo;
    let ghost mut n: int = 0;
    while e < t && (togo != 0 || free)
        invariant
            0 <= t <= 0x4_0000,
            -0x10_0000 <= e0,
            0 <= inc <= 255,
            free ==> inc > 0,
            -1 <= ux <= 1,
            -1 <= uy <= 1,
            0 <= n,
            free ==> e0 + n <= e,
            !free ==> n + togo <= 255 && 0 <= togo,
            e0 <= e,
            -n <= x <= 255 + n,
            -n <= y <= 255 + n,
            -n <= togo <= 255,
            n <= 0x20_0000,
            paint(
                canvas(*data),
                run_pixels(
                    t as int,
                    e as int,
                    inc as int,
                    x as int,
                    y as int,
                    ux as int,
                    uy as int,
                    togo as int,
                    free,
                ),
                color,
            ) == target,
        decreases
                (if !free {
                    togo as int
                } else if e < t {
                    t - e
                } else {
                    0
                }),
    {
        let ghost before = canvas(*data);
        proof {
            lemma_paint_union(
                before,
                set![clamped(x + ux, y + uy)],
                run_pixels(
                    t as int,
                    e + inc,
                    inc as int,
                    x + ux,
                    y + uy,
                    ux as int,
                    uy as int,
                    togo - 1,
                    free,
                ),
                color,
            );
            n = n + 1;
        }
        x += ux;
        y += uy;
        set_clamped(data, x, y, color);
        e += inc;
        togo -= 1;
    }
    proof {
        lemma_canvas_shape(*data);
        lemma_paint_empty(canvas(*data), color);
    }
}

/// Paints the line of width `w` from `c0` to `c1`: the square brush at both
/// ends, and the stepping between them with a side fill at each step. Both
/// end points are painted, whatever the width. A write beyond the grid
/// lands on its edge.
pub fn line_with_width(data: &mut Data, c0: (u8, u8), c1: (u8, u8), w: u8, color: Color)
    ensures
        canvas(*final(data)) == paint(canvas(*old(data)), wide_line_pixels(c0, c1, w), color),
        wide_line_pixels(c0, c1, w).contains(clamped(c0.0 as int, c0.1 as int)),
        wide_line_pixels(c0, c1, w).contains(clamped(c1.0 as int, c1.1 as int)),
{
    proof {
        lemma_wide_line_holds_its_ends(c0, c1, w);
    }
    let (x0, y0) = c0;
    let (x1, y1) = c1;
    let ghost start = canvas(*data);

    fill_square(data, (x0, y0), w, color);
    fill_square(data, (x1, y1), w, color);

    let dx8: u8 = if x0 > x1 {
        x0 - x1
    } else {
        x1 - x0
    };
    let dy8: u8 = if y0 > y1 {
        y0 - y1
    } else {
        y1 - y0
    };
    let t: i32 = compute_fill_threshold(dx8, dy8, w);

    let x1: i32 = x1 as i32;
    let y1: i32 = y1 as i32;
    let mut x0: i32 = x0 as i32;
    let mut y0: i32 = y0 as i32;

    let (dx, sx): (i32, i32) = if x0 > x1 {
        (x0 - x1, -1)
    } else {
        (x1 - x0, 1)
    };
    let (dy, sy): (i32, i32) = if y0 > y1 {
        (y0 - y1, -1)
    } else {
        (y1 - y0, 1)
    };

    let mut err: i32 = dx - dy;

    let ghost s = wide_span(c0, c1);
    let ghost stepping = wide_rest(s, t as int, x0 as int, y0 as int, err as int, (dx + dy) as nat);
    let ghost target = paint(canvas(*data), stepping, color);
    proof {
        lemma_paint_union(start, square_pixels(c0, w), square_pixels(c1, w), color);
        lemma_paint_union(start, square_pixels(c0, w).union(square_pixels(c1, w)), stepping, color);
    }
    let ghost mut a: int = 0;
    let ghost mut b: int = 0;
    let ghost mut fuel: nat = (dx + dy) as nat;

    loop
        invariant_except_break
            s == wide_span(c0, c1),
            s.dx == dx,
            s.dy == dy,
            s.sx == sx,
            s.sy == sy,
            s.x1 == x1,
            s.y1 == y1,
            t == fill_threshold(s.dx, s.dy, w),
            0 <= t <= 0x4_0000,
            0 <= dx <= 255,
            0 <= dy <= 255,
            0 <= x1 <= 255,
            0 <= y1 <= 255,
            sx == 1 || sx == -1,
            sy == 1 || sy == -1,
            0 <= a <= dx,
            0 <= b <= dy,
            x0 == x1 - sx * (dx - a),
            y0 == y1 - sy * (dy - b),
            0 <= x0 <= 255,
            0 <= y0 <= 255,
            dx - dy - 255 * a <= err <= dx - dy + 255 * b,
            fuel >= dx - a + dy - b,
            paint(canvas(*data), wide_rest(s, t as int, x0 as int, y0 as int, err as int, fuel), color)
                == target,
        ensures
            canvas(*data) == target,
        decreases dx - a + dy - b,
    {
        let ghost before = canvas(*data);
        let ghost here = set![clamped(x0 as int, y0 as int)];
        let ghost step_x = 2 * err >= -dx;
        let ghost step_y = 2 * err <= dy;
        let ghost side_y = if step_x {
            run_pixels(
                t as int,
                err + dy,
                dx as int,
                x0 as int,
                y0 as int,
                0,
                sy as int,
                distance(y1 as int, y0 as int),
                dx > dy,
            )
        } else {
            Set::empty()
        };
        let ghost side_x = if step_y {
            run_pixels(
                t as int,
                dx as int,
                dy as int,
                x0 as int,
                y0 as int,
                sx as int,
                0,
                distance(x1 as int, x0 as int),
                dx < dy,
            )
        } else {
            Set::empty()
        };
        proof {
            assert(distance(x1 as int, x0 as int) == dx - a && distance(y1 as int, y0 as int) == dy
                - b) by (nonlinear_arith)
                requires
                    sx == 1 || sx == -1,
                    sy == 1 || sy == -1,
                    x0 == x1 - sx * (dx - a),
                    y0 == y1 - sy * (dy - b),
                    a <= dx,
                    b <= dy,
            ;
        }

        set_clamped(data, x0, y0, color);

        let err_before: i32 = err;
        let x_before: i32 = x0;
        if 2 * err_before >= -dx {
            fill_run(
                data,
                t,
                err_before + dy,
                dx,
                x0,
                y0,
                0,
                sy,
                if y1 > y0 {
                    y1 - y0
                } else {
                    y0 - y1
                },
                dx > dy,
                color,
            );
            proof {
                lemma_paint_union(before, here, side_y, color);
            }
            if x0 == x1 {
                break ;
            }
            proof {
                assert(sx * (dx - (a + 1)) == sx * (dx - a) - sx) by (nonlinear_arith);
                a = a + 1;
            }
            err -= dy;
            x0 += sx;
        } else {
            proof {
                lemma_canvas_shape(*data);
                lemma_paint_empty(canvas(*data), color);
                lemma_paint_union(before, here, side_y, color);
            }
        }
        assert(canvas(*data) == paint(before, here.union(side_y), color));
        if 2 * err_before <= dy {
            fill_run(
                data,
                t,
                dx,
                dy,
                x_before,
                y0,
                sx,
                0,
                if x1 > x_before {
                    x1 - x_before
                } else {
                    x_before - x1
                },
                dx < dy,
                color,
            );
            proof {
                lemma_paint_union(before, here.union(side_y), side_x, color);
            }
            if y0 == y1 {
                break ;
            }
            proof {
                assert(sy * (dy - (b + 1)) == sy * (dy - b) - sy) by (nonlinear_arith);
                b = b + 1;
            }
            err += dx;
            y0 += sy;
        } else {
            proof {
                lemma_canvas_shape(*data);
                lemma_paint_empty(canvas(*data), color);
                lemma_paint_union(before, here.union(side_y), side_x, color);
            }
        }
        proof {
            let painted = here.union(side_y).union(side_x);
            assert(canvas(*data) == paint(before, painted, color));
            assert(fuel > 0);
            lemma_paint_union(
                before,
                painted,
                wide_rest(s, t as int, x0 as int, y0 as int, err as int, (fuel - 1) as nat),
                color,
            );
            fuel = (fuel - 1) as nat;
        }
    }
}

} // verus!
