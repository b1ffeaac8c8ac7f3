//! The figure: a pixel grid, its history, and the stroke in progress.
//!
//! A figure interprets instructions. Pointer instructions grow a path; when
//! the pointer goes up the path becomes a stroke of the tool in force and is
//! recorded in the history. After the instructions of a frame the figure
//! renders once: the history brings the grid up to what should show, and a
//! path that is still open is painted on top as a preview, which no record
//! keeps.

use vstd::prelude::*;
use crate::canvas::{blank_canvas, blank_data, canvas, clear, is_canvas, lemma_canvas_shape, Canvas, Color, Data};
use crate::consts::ERASER_SIZE;
use crate::frame::Frame;
use crate::history::{History, HistoryView};
use crate::operation::{render_eraser, render_pencil, stroke_of, Instruction, Operation, OperationView, Tool};

verus! {

/// The model of a [`FigureLocal`].
pub struct FigureView {
    /// What the pixel grid holds.
    pub canvas: Canvas,
    /// The points of the stroke in progress, if the pointer is down.
    pub path: Option<Seq<(u8, u8)>>,
    pub history: HistoryView,
    /// The colour that the next pencil stroke takes.
    pub color: Color,
    /// The tool that the next stroke is made with.
    pub tool: Tool,
    /// The brush size that the next eraser stroke takes.
    pub size: u8,
}

impl FigureView {
    /// The canvas has the shape of the grid, the history is well formed, and
    /// an open path has a point.
    pub open spec fn wf(self) -> bool {
        &&& is_canvas(self.canvas)
        &&& self.history.wf()
        &&& self.path matches Some(p) ==> p.len() >= 1
    }

    /// The figure at the start of a session: a blank canvas, nothing
    /// recorded, no stroke in progress, a black pencil, and the eraser at its
    /// usual size.
    pub open spec fn blank() -> Self {
        FigureView {
            canvas: blank_canvas(),
            path: None,
            history: HistoryView::empty(),
            color: Color { r: 0, g: 0, b: 0 },
            tool: Tool::Pencil,
            size: ERASER_SIZE,
        }
    }

    /// The figure after one instruction.
    ///
    /// - Pointer down opens a path at the point, in place of a path that was
    ///   open.
    /// - Pointer move adds the point to the open path, if there is one.
    /// - Pointer up adds the point to the open path, records the path as a
    ///   stroke of the tool in force, and closes it; with no open path it
    ///   does nothing.
    /// - Setting the colour or the tool affects the strokes recorded later.
    /// - Clear makes the canvas blank at once and records a clear.
    /// - Undo and redo move the cursor of the history.
    /// - Reset empties the history and makes the canvas blank.
    pub open spec fn excute(self, ins: Instruction) -> Self {
        match ins {
            Instruction::PointerDown(c) => FigureView { path: Some(seq![c]), ..self },
            Instruction::PointerMove(c) => match self.path {
                Some(p) => FigureView { path: Some(p.push(c)), ..self },
                None => self,
            },
            Instruction::PointerUp(c) => match self.path {
                Some(p) => FigureView {
                    path: None,
                    history: self.history.push(
                        stroke_of(self.tool, p.push(c), self.color, self.size),
                    ),
                    ..self
                },
                None => self,
            },
            Instruction::SetColor(c) => FigureView { color: c, ..self },
            Instruction::SetTool(t) => FigureView { tool: t, ..self },
            Instruction::Clear => FigureView {
                canvas: blank_canvas(),
                history: self.history.push(OperationView::Clear),
                ..self
            },
            Instruction::Redo => FigureView { history: self.history.redo(), ..self },
            Instruction::Undo => FigureView { history: self.history.undo(), ..self },
            Instruction::Reset => FigureView {
                canvas: blank_canvas(),
                history: self.history.clear(),
                ..self
            },
        }
    }

    /// The figure after the instructions of `instructions`, in order.
    pub open spec fn excute_all(self, instructions: Seq<Instruction>) -> Self
        decreases instructions.len(),
    {
        if instructions.len() == 0 {
            self
        } else {
            self.excute_all(instructions.drop_last()).excute(instructions.last())
        }
    }

    /// The figure after a rendering: the history brings the canvas up to
    /// what should show, and an open path is painted on top of it as the
    /// stroke it would be if the pointer went up now.
    pub open spec fn render(self) -> Self {
        let shown = self.history.shown(self.canvas);
        FigureView {
            canvas: match self.path {
                Some(p) => stroke_of(self.tool, p, self.color, self.size).apply(shown),
                None => shown,
            },
            history: self.history.rendered(),
            ..self
        }
    }

    /// The figure after the instructions of a frame and the one rendering
    /// that follows them.
    pub open spec fn render_frame(self, instructions: Seq<Instruction>) -> Self {
        self.excute_all(instructions).render()
    }
}

/// Something that instructions can be executed on.
pub trait Figure {
    /// Whether the figure is in a state to take an instruction.
    spec fn ready(&self) -> bool;

    /// Executes one instruction.
    fn excute(&mut self, ins: &Instruction)
        requires
            old(self).ready(),
        ensures
            final(self).ready(),
    ;
}

/// A figure that owns its pixel grid.
pub struct FigureLocal {
    data: Data,
    path: Option<Vec<(u8, u8)>>,
    history: History,
    color: Color,
    tool: Tool,
    size: u8,
}

impl View for FigureLocal {
    type V = FigureView;

    closed spec fn view(&self) -> FigureView {
        FigureView {
            canvas: canvas(self.data),
            path: match self.path {
                Some(p) => Some(p@),
                None => None,
            },
            history: self.history@,
            color: self.color,
            tool: self.tool,
            size: self.size,
        }
    }
}

impl FigureLocal {
    /// Whether the figure is well formed.
    pub open spec fn wf(&self) -> bool {
        self@.wf()
    }

    /// The figure at the start of a session.
    pub fn blank() -> (fig: Self)
        ensures
            fig@ == FigureView::blank(),
            fig.wf(),
    {
        let fig = FigureLocal {
            data: blank_data(),
            history: History::new(),
            path: None,
            color: Color::new(0, 0, 0),
            tool: Tool::Pencil,
            size: ERASER_SIZE,
        };
        proof {
            lemma_canvas_shape(fig.data);
        }
        fig
    }

    /// Executes the instructions of `f` in order, then renders once.
    pub fn render_frame(&mut self, f: &Frame)
        requires
            old(self).wf(),
        ensures
            final(self)@ == old(self)@.render_frame(f@),
            final(self).wf(),
    {
        let mut i: usize = 0;
        while i < f.instructions.len()
            invariant
                0 <= i <= f.instructions.len(),
                self.wf(),
                self@ == old(self)@.excute_all(f@.take(i as int)),
            decreases f.instructions.len() - i,
        {
            self.excute(&f.instructions[i]);
            proof {
                assert(f@.take(i + 1).drop_last() == f@.take(i as int));
            }
            i = i + 1;
        }
        assert(f@.take(f.instructions.len() as int) == f@);
        self.render()
    }

    /// Executes one instruction. The grid changes only on a clear or a
    /// reset; everything else shows at the next rendering.
    pub fn excute(&mut self, ins: &Instruction)
        requires
            old(self).wf(),
        ensures
            final(self)@ == old(self)@.excute(*ins),
            final(self).wf(),
    {
        match ins {
            Instruction::PointerDown(coor) => {
                let mut path = Vec::with_capacity(8);
                path.push(*coor);
                assert(path@ == seq![*coor]);
                self.path = Some(path);
            },
            Instruction::PointerMove(coor) => {
                if let Some(mut path) = self.path.take() {
                    path.push(*coor);
                    self.path = Some(path);
                }
            },
            Instruction::PointerUp(coor) => {
                if let Some(mut path) = self.path.take() {
                    path.push(*coor);
                    let operation = match self.tool {
                        Tool::Eraser => Operation::Eraser { path, size: self.size },
                        Tool::Pencil => Operation::Pencil { path, color: self.color },
                    };
                    self.history.push(operation);
                }
            },
            Instruction::SetColor(c) => {
                self.color = *c;
            },
            Instruction::SetTool(t) => {
                self.tool = *t;
            },
            Instruction::Clear => {
                clear(&mut self.data);
                self.history.push(Operation::Clear);
            },
            Instruction::Redo => {
                self.history.redo();
            },
            Instruction::Undo => {
                self.history.undo();
            },
            Instruction::Reset => {
                self.history.clear();
                clear(&mut self.data);
            },
        }
        proof {
            lemma_canvas_shape(self.data);
        }
    }

    /// Renders the history onto the grid, and the open path on top of it.
    pub fn render(&mut self)
        requires
            old(self).wf(),
        ensures
            final(self)@ == old(self)@.render(),
            final(self).wf(),
    {
        self.history.render(&mut self.data);

        match &self.path {
            Some(path) => {
                match self.tool {
                    Tool::Eraser => {
                        render_eraser(&mut self.data, path, self.size);
                    },
                    Tool::Pencil => {
                        render_pencil(&mut self.data, path, self.color);
                    },
                }
            },
            None => {},
        }
        proof {
            lemma_canvas_shape(self.data);
        }
    }

    /// The pixel grid, to read.
    #[inline]
    pub fn get_ref(&self) -> (data: &Data)
        ensures
            canvas(*data) == self@.canvas,
    {
        &self.data
    }
}

impl Figure for FigureLocal {
    open spec fn ready(&self) -> bool {
        self.wf()
    }

    fn excute(&mut self, ins: &Instruction)
        ensures
            final(self)@ == old(self)@.excute(*ins),
    {
        FigureLocal::excute(self, ins)
    }
}

} // verus!
