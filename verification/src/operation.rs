//! Instructions, and the operations that completed strokes become.
//!
//! An [`Instruction`] is the atomic unit of drawing intent; instructions are
//! what peers exchange. An [`Operation`] is what a figure records in its
//! history: a pencil stroke, an eraser stroke, or a clear. Contracts speak of
//! an operation by its [`OperationView`], and of what it does to a canvas by
//! [`OperationView::apply`].

use vstd::prelude::*;
use crate::canvas::{blank_canvas, canvas, clamped, clear, lemma_canvas_shape, lemma_paint_empty, lemma_paint_union, paint, Canvas, Color, Data, Pixel};
use crate::consts::{DRAWPAD_H, DRAWPAD_W};
use crate::draw::{fill_square, lemma_line_holds_its_ends, line, line_pixels, line_with_width, point, square_pixels, wide_line_pixels};

verus! {

/// The tool that turns a pointer path into a stroke.
#[derive(Debug, Clone, Copy, PartialEq, Eq, Structural)]
pub enum Tool {
    Eraser,
    Pencil,
}

/// One drawing or session command. The order of instructions matters.
#[derive(Debug, Clone, Copy, PartialEq, Eq)]
pub enum Instruction {
    PointerDown((u8, u8)),
    PointerMove((u8, u8)),
    PointerUp((u8, u8)),
    SetColor(Color),
    SetTool(Tool),
    Clear,
    Redo,
    Undo,
    Reset,
}

/// A recorded, renderable unit: a completed stroke or a clear.
#[derive(Debug, PartialEq, Eq)]
pub enum Operation {
    Pencil { path: Vec<(u8, u8)>, color: Color },
    Eraser { path: Vec<(u8, u8)>, size: u8 },
    Clear,
}

/// The model of an [`Operation`].
pub enum OperationView {
    Pencil { path: Seq<(u8, u8)>, color: Color },
    Eraser { path: Seq<(u8, u8)>, size: u8 },
    Clear,
}

/// The pixels of the one-pixel lines that join each point of `path` to the
/// next.
pub open spec fn polyline_pixels(path: Seq<(u8, u8)>) -> Set<Pixel>
    decreases path.len(),
{
    if path.len() < 2 {
        Set::empty()
    } else {
        polyline_pixels(path.drop_last()).union(
            line_pixels(path[path.len() - 2], path[path.len() - 1]),
        )
    }
}

/// The pixels of the lines of width `size` that join each point of `path` to
/// the next.
pub open spec fn wide_polyline_pixels(path: Seq<(u8, u8)>, size: u8) -> Set<Pixel>
    decreases path.len(),
{
    if path.len() < 2 {
        Set::empty()
    } else {
        wide_polyline_pixels(path.drop_last(), size).union(
            wide_line_pixels(path[path.len() - 2], path[path.len() - 1], size),
        )
    }
}

/// The pixels of a pencil stroke along `path`: the point itself where the
/// path is a single point, clipped to the grid.
pub open spec fn pencil_pixels(path: Seq<(u8, u8)>) -> Set<Pixel> {
    if path.len() == 1 {
        set![clamped(path[0].0 as int, path[0].1 as int)]
    } else {
        polyline_pixels(path)
    }
}

/// The pixels of an eraser stroke of brush `size` along `path`: one square
/// brush where the path is a single point.
pub open spec fn eraser_pixels(path: Seq<(u8, u8)>, size: u8) -> Set<Pixel> {
    if path.len() == 1 {
        square_pixels(path[0], size)
    } else {
        wide_polyline_pixels(path, size)
    }
}

impl OperationView {
    /// A stroke has at least one point.
    pub open spec fn wf(self) -> bool {
        match self {
            OperationView::Pencil { path, .. } => path.len() >= 1,
            OperationView::Eraser { path, .. } => path.len() >= 1,
            OperationView::Clear => true,
        }
    }

    /// The canvas after the operation was rendered onto `c`: a pencil stroke
    /// paints its pixels in its colour, an eraser stroke paints its pixels
    /// white, a clear leaves every pixel white.
    pub open spec fn apply(self, c: Canvas) -> Canvas {
        match self {
            OperationView::Pencil { path, color } => paint(c, pencil_pixels(path), color),
            OperationView::Eraser { path, size } => paint(
                c,
                eraser_pixels(path, size),
                Color::white(),
            ),
            OperationView::Clear => blank_canvas(),
        }
    }
}

impl OperationView {
    /// The pixels that the operation paints: those of its stroke; none for
    /// a clear, which whitens by other means.
    pub open spec fn pixels(self) -> Set<Pixel> {
        match self {
            OperationView::Pencil { path, .. } => pencil_pixels(path),
            OperationView::Eraser { path, size } => eraser_pixels(path, size),
            OperationView::Clear => Set::empty(),
        }
    }
}

/// A polyline holds the polyline through its first points.
pub proof fn lemma_polyline_grows(path: Seq<(u8, u8)>, n: int)
    requires
        0 <= n <= path.len(),
    ensures
        polyline_pixels(path.take(n)).subset_of(polyline_pixels(path)),
    decreases path.len(),
{
    if n < path.len() {
        if path.len() >= 2 {
            lemma_polyline_grows(path.drop_last(), n);
            assert(path.drop_last().take(n) =~= path.take(n));
        }
    } else {
        assert(path.take(n) =~= path);
    }
}

/// A wide polyline holds the wide polyline through its first points.
pub proof fn lemma_wide_polyline_grows(path: Seq<(u8, u8)>, size: u8, n: int)
    requires
        0 <= n <= path.len(),
    ensures
        wide_polyline_pixels(path.take(n), size).subset_of(wide_polyline_pixels(path, size)),
    decreases path.len(),
{
    if n < path.len() {
        if path.len() >= 2 {
            lemma_wide_polyline_grows(path.drop_last(), size, n);
            assert(path.drop_last().take(n) =~= path.take(n));
        }
    } else {
        assert(path.take(n) =~= path);
    }
}

/// A stroke holds the stroke through its first points: the preview of a
/// stroke in progress lies within the stroke that it becomes.
pub proof fn lemma_stroke_grows(tool: Tool, path: Seq<(u8, u8)>, n: int, color: Color, size: u8)
    requires
        1 <= n <= path.len(),
    ensures
        stroke_of(tool, path.take(n), color, size).pixels().subset_of(
            stroke_of(tool, path, color, size).pixels(),
        ),
{
    if n == path.len() {
        assert(path.take(n) =~= path);
    } else if n == 1 {
        let first = path.take(2);
        assert(first.drop_last() =~= path.take(1));
        assert(path.take(1)[0] == path[0]);
        match tool {
            Tool::Pencil => {
                lemma_polyline_grows(path, 2);
                lemma_line_holds_its_ends(path[0], path[1]);
                assert(polyline_pixels(first).contains(
                    clamped(path[0].0 as int, path[0].1 as int),
                ));
            },
            Tool::Eraser => {
                lemma_wide_polyline_grows(path, size, 2);
                assert(square_pixels(path[0], size).subset_of(
                    wide_line_pixels(path[0], path[1], size),
                ));
                assert(wide_line_pixels(path[0], path[1], size).subset_of(
                    wide_polyline_pixels(first, size),
                ));
            },
        }
    } else {
        lemma_polyline_grows(path, n);
        lemma_wide_polyline_grows(path, size, n);
    }
}

/// A stroke painted over its own preview is the stroke painted alone.
pub proof fn lemma_stroke_covers_preview(
    tool: Tool,
    path: Seq<(u8, u8)>,
    n: int,
    color: Color,
    size: u8,
    c: Canvas,
)
    requires
        1 <= n <= path.len(),
    ensures
        stroke_of(tool, path, color, size).apply(
            stroke_of(tool, path.take(n), color, size).apply(c),
        ) == stroke_of(tool, path, color, size).apply(c),
{
    let preview = stroke_of(tool, path.take(n), color, size);
    let stroke = stroke_of(tool, path, color, size);
    lemma_stroke_grows(tool, path, n, color, size);
    assert(preview.pixels().union(stroke.pixels()) =~= stroke.pixels());
    match tool {
        Tool::Pencil => {
            lemma_paint_union(c, preview.pixels(), stroke.pixels(), color);
        },
        Tool::Eraser => {
            lemma_paint_union(c, preview.pixels(), stroke.pixels(), Color::white());
        },
    }
}

impl View for Operation {
    type V = OperationView;

    open spec fn view(&self) -> OperationView {
        match self {
            Operation::Pencil { path, color } => OperationView::Pencil {
                path: path@,
                color: *color,
            },
            Operation::Eraser { path, size } => OperationView::Eraser { path: path@, size: *size },
            Operation::Clear => OperationView::Clear,
        }
    }
}

/// The stroke that `tool` makes of `path`, with the colour and brush size in
/// force.
pub open spec fn stroke_of(tool: Tool, path: Seq<(u8, u8)>, color: Color, size: u8) -> OperationView {
    match tool {
        Tool::Eraser => OperationView::Eraser { path, size },
        Tool::Pencil => OperationView::Pencil { path, color },
    }
}

/// Renders a pencil stroke along `path`.
pub fn render_pencil(data: &mut Data, path: &Vec<(u8, u8)>, color: Color)
    requires
        path@.len() >= 1,
    ensures
        canvas(*final(data)) == paint(canvas(*old(data)), pencil_pixels(path@), color),
{
    if path.len() == 1 {
        let (x, y) = path[0];
        let x: u8 = if x as usize > DRAWPAD_W - 1 {
            (DRAWPAD_W - 1) as u8
        } else {
            x
        };
        let y: u8 = if y as usize > DRAWPAD_H - 1 {
            (DRAWPAD_H - 1) as u8
        } else {
            y
        };
        point(data, (x, y), color);
    } else {
        let ghost start = canvas(*data);
        proof {
            lemma_canvas_shape(*data);
            lemma_paint_empty(start, color);
        }
        let mut i: usize = 1;
        while i < path.len()
            invariant
                1 <= i <= path.len(),
                canvas(*data) == paint(start, polyline_pixels(path@.take(i as int)), color),
            decreases path.len() - i,
        {
            line(data, path[i - 1], path[i], color);
            proof {
                let prefix = path@.take(i + 1);
                assert(prefix.drop_last() == path@.take(i as int));
                lemma_paint_union(
                    start,
                    polyline_pixels(path@.take(i as int)),
                    line_pixels(path@[i - 1], path@[i as int]),
                    color,
                );
            }
            i = i + 1;
        }
        assert(path@.take(path.len() as int) == path@);
    }
}

/// Renders an eraser stroke of brush `size` along `path`.
pub fn render_eraser(data: &mut Data, path: &Vec<(u8, u8)>, size: u8)
    requires
        path@.len() >= 1,
    ensures
        canvas(*final(data)) == paint(
            canvas(*old(data)),
            eraser_pixels(path@, size),
            Color::white(),
        ),
{
    if path.len() == 1 {
        fill_square(data, path[0], size, Color::white());
    } else {
        let ghost start = canvas(*data);
        proof {
            lemma_canvas_shape(*data);
            lemma_paint_empty(start, Color::white());
        }
        let mut i: usize = 1;
        while i < path.len()
            invariant
                1 <= i <= path.len(),
                canvas(*data) == paint(
                    start,
                    wide_polyline_pixels(path@.take(i as int), size),
                    Color::white(),
                ),
            decreases path.len() - i,
        {
            line_with_width(data, path[i - 1], path[i], size, Color::white());
            proof {
                let prefix = path@.take(i + 1);
                assert(prefix.drop_last() == path@.take(i as int));
                lemma_paint_union(
                    start,
                    wide_polyline_pixels(path@.take(i as int), size),
                    wide_line_pixels(path@[i - 1], path@[i as int], size),
                    Color::white(),
                );
            }
            i = i + 1;
        }
        assert(path@.take(path.len() as int) == path@);
    }
}

impl Operation {
    /// Renders the operation onto `data`.
    pub fn render(&self, data: &mut Data)
        requires
            self@.wf(),
        ensures
            canvas(*final(data)) == self@.apply(canvas(*old(data))),
    {
        match self {
            Operation::Pencil { path, color } => {
                render_pencil(data, path, *color);
            },
            Operation::Eraser { path, size } => {
                render_eraser(data, path, *size);
            },
            Operation::Clear => {
                clear(data);
            },
        }
    }
}

} // verus!
