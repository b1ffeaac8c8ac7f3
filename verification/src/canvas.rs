//! Colours, the pixel grid, and its mathematical model.
//!
//! The executable grid is a fixed-size array of columns. Contracts speak of
//! its [`canvas`]: a sequence of `DRAWPAD_W` columns, each a sequence of
//! `DRAWPAD_H` colours. Painting is described by [`paint`]: every pixel of a
//! set takes the new colour, every other pixel keeps its own.

use vstd::prelude::*;
use crate::consts::{DRAWPAD_H, DRAWPAD_W};

verus! {

/// An RGB colour with 8 bits per channel.
#[derive(Debug, Clone, Copy, PartialEq, Eq, Structural)]
pub struct Color {
    pub r: u8,
    pub g: u8,
    pub b: u8,
}

impl Color {
    /// The colour with the channels `r`, `g` and `b`.
    pub fn new(r: u8, g: u8, b: u8) -> (c: Self)
        ensures
            c == (Color { r, g, b }),
    {
        Self { r, g, b }
    }

    /// White, as contracts name it.
    pub open spec fn spec_white() -> Self {
        Color { r: 0xff, g: 0xff, b: 0xff }
    }

    /// The colour of a blank canvas.
    #[verifier::when_used_as_spec(spec_white)]
    pub fn white() -> (c: Self)
        ensures
            c == Color::white(),
    {
        Self { r: 0xff, g: 0xff, b: 0xff }
    }
}

impl Default for Color {
    fn default() -> (c: Self)
        ensures
            c == Color::white(),
    {
        Color::white()
    }
}

/// The pixel grid: `data[x][y]` is the colour at column `x`, row `y`.
pub type Data = [[Color; DRAWPAD_H]; DRAWPAD_W];

/// The model of a pixel grid.
pub type Canvas = Seq<Seq<Color>>;

/// A pixel position.
pub type Pixel = (int, int);

/// Whether `(x, y)` lies on the grid.
pub open spec fn on_canvas(x: int, y: int) -> bool {
    0 <= x < DRAWPAD_W && 0 <= y < DRAWPAD_H
}

/// Whether `c` has the shape of a canvas.
pub open spec fn is_canvas(c: Canvas) -> bool {
    &&& c.len() == DRAWPAD_W
    &&& forall|x: int| 0 <= x < DRAWPAD_W ==> (#[trigger] c[x]).len() == DRAWPAD_H
}

/// The canvas that a grid holds.
pub open spec fn canvas(data: Data) -> Canvas {
    Seq::new(DRAWPAD_W as nat, |x: int| Seq::new(DRAWPAD_H as nat, |y: int| data[x][y]))
}

/// The canvas with every pixel white.
pub open spec fn blank_canvas() -> Canvas {
    Seq::new(DRAWPAD_W as nat, |x: int| Seq::new(DRAWPAD_H as nat, |y: int| Color::white()))
}

/// `c` with every pixel of `pixels` set to `color`.
pub open spec fn paint(c: Canvas, pixels: Set<Pixel>, color: Color) -> Canvas {
    Seq::new(
        DRAWPAD_W as nat,
        |x: int|
            Seq::new(
                DRAWPAD_H as nat,
                |y: int|
                    if pixels.contains((x, y)) {
                        color
                    } else {
                        c[x][y]
                    },
            ),
    )
}

/// The column index nearest to `x` on the grid.
pub open spec fn clamp_x(x: int) -> int {
    if x < 0 {
        0
    } else if x > DRAWPAD_W - 1 {
        DRAWPAD_W - 1
    } else {
        x
    }
}

/// The row index nearest to `y` on the grid.
pub open spec fn clamp_y(y: int) -> int {
    if y < 0 {
        0
    } else if y > DRAWPAD_H - 1 {
        DRAWPAD_H - 1
    } else {
        y
    }
}

/// The pixel that a write at `(x, y)` lands on: out-of-range coordinates are
/// clipped to the nearest edge.
pub open spec fn clamped(x: int, y: int) -> Pixel {
    (clamp_x(x), clamp_y(y))
}

pub proof fn lemma_canvas_shape(data: Data)
    ensures
        is_canvas(canvas(data)),
        is_canvas(blank_canvas()),
{
}

/// Painting nothing changes nothing.
pub proof fn lemma_paint_empty(c: Canvas, color: Color)
    requires
        is_canvas(c),
    ensures
        paint(c, Set::empty(), color) == c,
{
    let p = paint(c, Set::empty(), color);
    assert forall|x: int| 0 <= x < DRAWPAD_W implies #[trigger] p[x] == c[x] by {
        assert(p[x] =~= c[x]);
    }
    assert(p =~= c);
}

/// Painting two sets in turn with one colour is painting their union.
pub proof fn lemma_paint_union(c: Canvas, a: Set<Pixel>, b: Set<Pixel>, color: Color)
    ensures
        paint(paint(c, a, color), b, color) == paint(c, a.union(b), color),
{
    let l = paint(paint(c, a, color), b, color);
    let r = paint(c, a.union(b), color);
    assert forall|x: int| 0 <= x < DRAWPAD_W implies #[trigger] l[x] == r[x] by {
        assert(l[x] =~= r[x]);
    }
    assert(l =~= r);
}

/// The canvas of a grid shows the grid's pixels.
pub proof fn lemma_canvas_pixel(data: Data, x: int, y: int)
    requires
        on_canvas(x, y),
    ensures
        canvas(data)[x][y] == data[x][y],
{
    let col = canvas(data)[x];
    assert(col == Seq::new(DRAWPAD_H as nat, |y: int| data[x][y]));
    assert(col[y] == data[x][y]);
}

/// Painting is deterministic: the canvas that painting leaves is fixed by
/// the set of pixels and the colour, and by the earlier canvas outside the
/// set alone. Inside the set every pixel has the new colour, whatever was
/// there, so two canvases painted alike agree there; outside it every pixel
/// is the one that was there.
pub proof fn law_paint_is_determined(c1: Canvas, c2: Canvas, pixels: Set<Pixel>, color: Color)
    ensures
        forall|x: int, y: int|
            on_canvas(x, y) && pixels.contains((x, y)) ==> #[trigger] paint(c1, pixels, color)[x][y]
                == color && paint(c1, pixels, color)[x][y] == paint(c2, pixels, color)[x][y],
        forall|x: int, y: int|
            on_canvas(x, y) && !pixels.contains((x, y)) ==> #[trigger] paint(
                c1,
                pixels,
                color,
            )[x][y] == c1[x][y],
{
}

/// A grid with every pixel white.
pub fn blank_data() -> (data: Data)
    ensures
        canvas(data) == blank_canvas(),
{
    let data = [[Color::white(); DRAWPAD_H]; DRAWPAD_W];
    proof {
        let l = canvas(data);
        let r = blank_canvas();
        assert forall|x: int| 0 <= x < DRAWPAD_W implies #[trigger] l[x] == r[x] by {
            assert(l[x] =~= r[x]);
        }
        assert(l =~= r);
    }
    data
}

/// Makes every pixel white.
pub fn clear(data: &mut Data)
    ensures
        canvas(*final(data)) == blank_canvas(),
{
    *data = blank_data();
}

/// The bytes that show a canvas on a screen: row by row from the top, each
/// row from the left, four bytes to a pixel, red, green, blue, and an alpha
/// of 255.
pub open spec fn rgba_of(c: Canvas) -> Seq<u8> {
    Seq::new(
        (DRAWPAD_W * DRAWPAD_H * 4) as nat,
        |i: int|
            {
                let pixel = c[(i / 4) % (DRAWPAD_W as int)][(i / 4) / (DRAWPAD_W as int)];
                if i % 4 == 0 {
                    pixel.r
                } else if i % 4 == 1 {
                    pixel.g
                } else if i % 4 == 2 {
                    pixel.b
                } else {
                    0xff
                }
            },
    )
}

/// Packs the grid into the bytes that show it on a screen.
pub fn to_rgba(data: &Data) -> (bytes: Vec<u8>)
    ensures
        bytes@ == rgba_of(canvas(*data)),
{
    let mut bytes: Vec<u8> = Vec::with_capacity(DRAWPAD_W * DRAWPAD_H * 4);
    let ghost all = rgba_of(canvas(*data));
    let mut y: usize = 0;
    while y < DRAWPAD_H
        invariant
            0 <= y <= DRAWPAD_H,
            all == rgba_of(canvas(*data)),
            bytes@ == all.take(4 * (y * DRAWPAD_W)),
        decreases DRAWPAD_H - y,
    {
        let mut x: usize = 0;
        while x < DRAWPAD_W
            invariant
                0 <= y < DRAWPAD_H,
                0 <= x <= DRAWPAD_W,
                all == rgba_of(canvas(*data)),
                bytes@ == all.take(4 * (y * DRAWPAD_W + x)),
            decreases DRAWPAD_W - x,
        {
            let c = data[x][y];
            proof {
                lemma_canvas_pixel(*data, x as int, y as int);
            }
            bytes.push(c.r);
            bytes.push(c.g);
            bytes.push(c.b);
            bytes.push(0xff);
            assert(bytes@ =~= all.take(4 * (y * DRAWPAD_W + x + 1)));
            x = x + 1;
        }
        y = y + 1;
    }
    assert(all.take(4 * (DRAWPAD_H * DRAWPAD_W)) =~= all);
    bytes
}

} // verus!
