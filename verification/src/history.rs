//! The undo/redo history of a figure.
//!
//! A history is a stack of operations with two cursors. `visible` counts the
//! operations that should show: undo and redo move it. `committed` counts the
//! operations that the last rendering painted. Rendering reconciles the two:
//! forwards it paints the operations in between, backwards it starts from a
//! blank canvas, because a painted operation cannot be taken off again.
//!
//! Rendering judges by the two cursors alone. A push that follows an undo
//! before any rendering has seen the undo replaces operations that the
//! canvas still shows; where the cursor for what shows has caught up with
//! the other by the next rendering, the canvas keeps them. The laws below
//! speak of pushes onto a history whose canvas is up to date.

use vstd::prelude::*;
use crate::canvas::{blank_canvas, canvas, clear, Canvas, Data};
use crate::operation::{Operation, OperationView};

verus! {

/// The model of a [`History`].
pub struct HistoryView {
    /// The recorded operations, oldest first.
    pub stack: Seq<OperationView>,
    /// How many operations the last rendering painted.
    pub committed: nat,
    /// How many operations should show.
    pub visible: nat,
}

/// `c` after the operations `stack[from]`, ..., `stack[to - 1]` were rendered
/// onto it in that order.
pub open spec fn replay(stack: Seq<OperationView>, from: int, to: int, c: Canvas) -> Canvas
    decreases to - from,
{
    if from >= to {
        c
    } else {
        stack[to - 1].apply(replay(stack, from, to - 1, c))
    }
}

impl HistoryView {
    /// The cursor for undo and redo stays on the stack, and every recorded
    /// stroke has a point.
    pub open spec fn wf(self) -> bool {
        &&& self.visible <= self.stack.len()
        &&& forall|i: int| 0 <= i < self.stack.len() ==> (#[trigger] self.stack[i]).wf()
    }

    /// The history with nothing recorded.
    pub open spec fn empty() -> Self {
        HistoryView { stack: Seq::empty(), committed: 0, visible: 0 }
    }

    /// One more operation shows, unless all do.
    pub open spec fn redo(self) -> Self {
        if self.visible < self.stack.len() {
            HistoryView { visible: self.visible + 1, ..self }
        } else {
            self
        }
    }

    /// One operation fewer shows, unless none does.
    pub open spec fn undo(self) -> Self {
        if self.visible > 0 {
            HistoryView { visible: (self.visible - 1) as nat, ..self }
        } else {
            self
        }
    }

    /// The operations that do not show are dropped, `op` is recorded after
    /// those that do, and it shows.
    pub open spec fn push(self, op: OperationView) -> Self {
        HistoryView {
            stack: self.stack.take(self.visible as int).push(op),
            visible: self.visible + 1,
            ..self
        }
    }

    /// Nothing is recorded any more.
    pub open spec fn clear(self) -> Self {
        HistoryView::empty()
    }

    /// The canvas that a rendering onto `c` leaves. Where more was painted
    /// than should show, it is the operations that show, replayed onto a
    /// blank canvas; else it is `c` with the operations painted that show
    /// and were not painted yet.
    pub open spec fn shown(self, c: Canvas) -> Canvas {
        if self.committed > self.visible {
            replay(self.stack, 0, self.visible as int, blank_canvas())
        } else {
            replay(self.stack, self.committed as int, self.visible as int, c)
        }
    }

    /// The history after a rendering: what shows is painted.
    pub open spec fn rendered(self) -> Self {
        HistoryView { committed: self.visible, ..self }
    }
}

/// A stack of operations with a cursor for what shows and one for what is
/// painted.
pub struct History {
    stack: Vec<Operation>,
    committed: usize,
    visible: usize,
}

impl View for History {
    type V = HistoryView;

    closed spec fn view(&self) -> HistoryView {
        HistoryView {
            stack: self.stack@.map_values(|op: Operation| op@),
            committed: self.committed as nat,
            visible: self.visible as nat,
        }
    }
}

impl History {
    /// Whether the history is well formed.
    pub open spec fn wf(&self) -> bool {
        self@.wf()
    }

    /// A history with nothing recorded.
    pub fn new() -> (h: Self)
        ensures
            h@ == HistoryView::empty(),
            h.wf(),
    {
        let h = Self { stack: Vec::with_capacity(64), committed: 0, visible: 0 };
        assert(h@.stack =~= Seq::empty());
        h
    }

    /// Shows one more operation, unless all show.
    pub fn redo(&mut self)
        requires
            old(self).wf(),
        ensures
            final(self)@ == old(self)@.redo(),
            final(self).wf(),
    {
        if self.visible < self.stack.len() {
            self.visible += 1;
        }
    }

    /// Shows one operation fewer, unless none shows.
    pub fn undo(&mut self)
        requires
            old(self).wf(),
        ensures
            final(self)@ == old(self)@.undo(),
            final(self).wf(),
    {
        if self.visible > 0 {
            self.visible -= 1;
        }
    }

    /// Records `op` after the operations that show, in place of those that
    /// do not.
    pub fn push(&mut self, op: Operation)
        requires
            old(self).wf(),
            op@.wf(),
        ensures
            final(self)@ == old(self)@.push(op@),
            final(self).wf(),
    {
        self.stack.truncate(self.visible);
        self.stack.push(op);
        let n = self.stack.len();
        self.visible += 1;
        proof {
            assert(self@.stack =~= old(self)@.push(op@).stack);
            assert forall|i: int| 0 <= i < self@.stack.len() implies (#[trigger] self@.stack[i]).wf() by {
                if i < old(self).visible {
                    assert(self@.stack[i] == old(self)@.stack[i]);
                }
            }
        }
    }

    /// Forgets every operation.
    pub fn clear(&mut self)
        ensures
            final(self)@ == old(self)@.clear(),
            final(self).wf(),
    {
        self.visible = 0;
        self.committed = 0;
        self.stack.clear();
        assert(self@.stack =~= Seq::empty());
    }

    /// Brings `data` up to what should show, and notes that it is painted.
    pub fn render(&mut self, data: &mut Data)
        requires
            old(self).wf(),
        ensures
            final(self)@ == old(self)@.rendered(),
            canvas(*final(data)) == old(self)@.shown(canvas(*old(data))),
            final(self).wf(),
    {
        if self.committed > self.visible {
            clear(data);
            self.committed = 0;
        }
        let ghost base = canvas(*data);
        let ghost stack = self@.stack;
        let start: usize = self.committed;
        let mut idx: usize = start;
        while idx < self.visible
            invariant
                self.wf(),
                self@.stack == stack,
                self.visible == old(self).visible,
                self.stack == old(self).stack,
                start <= idx <= self.visible,
                canvas(*data) == replay(stack, start as int, idx as int, base),
            decreases self.visible - idx,
        {
            let op = &self.stack[idx];
            assert(op@ == stack[idx as int]);
            assert(stack[idx as int].wf());
            op.render(data);
            assert(replay(stack, start as int, idx + 1, base) == stack[idx as int].apply(
                replay(stack, start as int, idx as int, base),
            ));
            idx = idx + 1;
        }
        self.committed = self.visible;
    }
}

/// `h` after the operations of `ops` were pushed, in order.
pub open spec fn pushed(h: HistoryView, ops: Seq<OperationView>) -> HistoryView
    decreases ops.len(),
{
    if ops.len() == 0 {
        h
    } else {
        pushed(h, ops.drop_last()).push(ops.last())
    }
}

/// `h` after `n` undos.
pub open spec fn undone(h: HistoryView, n: nat) -> HistoryView
    decreases n,
{
    if n == 0 {
        h
    } else {
        undone(h, (n - 1) as nat).undo()
    }
}

/// `h` after `n` redos.
pub open spec fn redone(h: HistoryView, n: nat) -> HistoryView
    decreases n,
{
    if n == 0 {
        h
    } else {
        redone(h, (n - 1) as nat).redo()
    }
}

/// One move of a history and the canvas it renders onto.
pub enum HistoryStep {
    Push(OperationView),
    Undo,
    Redo,
    Render,
}

/// The history and canvas after one move.
pub open spec fn step(h: HistoryView, c: Canvas, s: HistoryStep) -> (HistoryView, Canvas) {
    match s {
        HistoryStep::Push(op) => (h.push(op), c),
        HistoryStep::Undo => (h.undo(), c),
        HistoryStep::Redo => (h.redo(), c),
        HistoryStep::Render => (h.rendered(), h.shown(c)),
    }
}

/// The history and canvas after the moves of `steps`, in order.
pub open spec fn run(h: HistoryView, c: Canvas, steps: Seq<HistoryStep>) -> (HistoryView, Canvas)
    decreases steps.len(),
{
    if steps.len() == 0 {
        (h, c)
    } else {
        let (h1, c1) = run(h, c, steps.drop_last());
        step(h1, c1, steps.last())
    }
}

/// Pushing onto an empty history records the operations as they come, and
/// all of them show.
pub proof fn lemma_pushed_from_empty(ops: Seq<OperationView>)
    ensures
        pushed(HistoryView::empty(), ops) == (HistoryView {
            stack: ops,
            committed: 0,
            visible: ops.len(),
        }),
    decreases ops.len(),
{
    if ops.len() > 0 {
        lemma_pushed_from_empty(ops.drop_last());
        let before = pushed(HistoryView::empty(), ops.drop_last());
        assert(before.stack.take(before.visible as int) == ops.drop_last());
        assert(ops.drop_last().push(ops.last()) == ops);
    } else {
        assert(ops == Seq::<OperationView>::empty());
    }
}

/// Undos move the cursor back, as far as there is something to undo, and
/// touch nothing else.
pub proof fn lemma_undone(h: HistoryView, n: nat)
    ensures
        undone(h, n) == (HistoryView {
            visible: if h.visible >= n {
                (h.visible - n) as nat
            } else {
                0
            },
            ..h
        }),
    decreases n,
{
    if n > 0 {
        lemma_undone(h, (n - 1) as nat);
    }
}

/// Redos move the cursor forward, as far as there is something to redo, and
/// touch nothing else.
pub proof fn lemma_redone(h: HistoryView, n: nat)
    requires
        h.visible <= h.stack.len(),
    ensures
        redone(h, n) == (HistoryView {
            visible: if h.visible + n <= h.stack.len() {
                h.visible + n
            } else {
                h.stack.len()
            },
            ..h
        }),
    decreases n,
{
    if n > 0 {
        lemma_redone(h, (n - 1) as nat);
    }
}

/// Replaying up to `mid` and then from `mid` is replaying all the way.
pub proof fn lemma_replay_split(
    stack: Seq<OperationView>,
    from: int,
    mid: int,
    to: int,
    c: Canvas,
)
    requires
        from <= mid <= to,
    ensures
        replay(stack, mid, to, replay(stack, from, mid, c)) == replay(stack, from, to, c),
    decreases to - mid,
{
    if mid < to {
        lemma_replay_split(stack, from, mid, to - 1, c);
    }
}

/// Where the canvas holds the painted operations replayed onto a blank
/// canvas, a rendering leaves the operations that show replayed onto a blank
/// canvas.
pub proof fn lemma_render_shows_visible(h: HistoryView, c: Canvas)
    requires
        c == replay(h.stack, 0, h.committed as int, blank_canvas()),
    ensures
        h.shown(c) == replay(h.stack, 0, h.visible as int, blank_canvas()),
{
    if h.committed <= h.visible {
        lemma_replay_split(h.stack, 0, h.committed as int, h.visible as int, blank_canvas());
    }
}

/// Whatever was pushed, undone, redone and rendered since a fresh history
/// met a blank canvas: while no operation is painted, the canvas is blank.
pub proof fn lemma_unpainted_is_blank(steps: Seq<HistoryStep>)
    ensures
        run(HistoryView::empty(), blank_canvas(), steps).0.committed == 0 ==> run(
            HistoryView::empty(),
            blank_canvas(),
            steps,
        ).1 == blank_canvas(),
    decreases steps.len(),
{
    if steps.len() > 0 {
        lemma_unpainted_is_blank(steps.drop_last());
    }
}

/// Full undo gives back the blank canvas: whatever was pushed, undone,
/// redone and rendered since a fresh history met a blank canvas, once no
/// operation shows any more, a rendering leaves the canvas blank.
pub proof fn law_nothing_visible_is_blank(steps: Seq<HistoryStep>)
    ensures
        ({
            let (h, c) = run(HistoryView::empty(), blank_canvas(), steps);
            h.visible == 0 ==> h.shown(c) == blank_canvas()
        }),
{
    lemma_unpainted_is_blank(steps);
}

/// Full undo gives back the blank canvas: push any strokes onto a fresh
/// history, render them onto a blank canvas, undo as many times as there are
/// strokes, and render again. The canvas is blank.
pub proof fn law_undo_all_restores_blank(ops: Seq<OperationView>)
    ensures
        ({
            let h = pushed(HistoryView::empty(), ops);
            let painted = h.shown(blank_canvas());
            let back = undone(h.rendered(), ops.len());
            &&& back.visible == 0
            &&& back.shown(painted) == blank_canvas()
        }),
{
    lemma_pushed_from_empty(ops);
    let h = pushed(HistoryView::empty(), ops);
    lemma_undone(h.rendered(), ops.len());
}

/// Redo inverts undo: push `k` strokes onto a fresh history and render them
/// onto a blank canvas. Then `j <= k` undos followed by `j` redos and a
/// rendering leave that same canvas, and so they do when the canvas is also
/// rendered between the undos and the redos.
pub proof fn law_redo_inverts_undo(ops: Seq<OperationView>, j: nat)
    requires
        j <= ops.len(),
    ensures
        ({
            let h = pushed(HistoryView::empty(), ops).rendered();
            let painted = pushed(HistoryView::empty(), ops).shown(blank_canvas());
            let back = undone(h, j);
            &&& redone(back, j) == h
            &&& redone(back, j).shown(painted) == painted
            &&& redone(back.rendered(), j).shown(back.shown(painted)) == painted
        }),
{
    lemma_pushed_from_empty(ops);
    let h = pushed(HistoryView::empty(), ops).rendered();
    let painted = pushed(HistoryView::empty(), ops).shown(blank_canvas());
    let back = undone(h, j);
    lemma_undone(h, j);
    lemma_redone(back, j);
    lemma_redone(back.rendered(), j);
    assert(painted == replay(ops, 0, ops.len() as int, blank_canvas()));
    let between = back.shown(painted);
    lemma_render_shows_visible(back, painted);
    assert(between == replay(ops, 0, ops.len() - j, blank_canvas()));
    lemma_render_shows_visible(redone(back.rendered(), j), between);
}

/// A push leaves nothing to redo: the operations that did not show are gone
/// from the stack, the new one is on top and shows, and redos change nothing
/// until something is undone; one undo followed by one redo comes back to
/// the same history.
pub proof fn law_push_discards_redo(h: HistoryView, op: OperationView, n: nat)
    requires
        h.wf(),
    ensures
        h.push(op).stack == h.stack.take(h.visible as int).push(op),
        h.push(op).visible == h.push(op).stack.len(),
        redone(h.push(op), n) == h.push(op),
        h.push(op).undo().redo() == h.push(op),
{
    lemma_redone(h.push(op), n);
}

} // verus!
