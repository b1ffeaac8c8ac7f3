//! What holds of a figure over whole frames.
//!
//! A figure is *settled* when its canvas holds exactly what its history
//! counts as painted. The figure of a fresh session is settled, and frames
//! of whole strokes, of undos and of redos keep it so. On settled figures
//! undo and redo are exact: full undo gives back the blank canvas, redo
//! inverts undo, and a new stroke discards what could be redone.
//!
//! A stroke may take several ticks. A frame that ends with the pointer
//! still down leaves a preview on the canvas that no record keeps. The
//! preview lies within the stroke that it becomes, so once the pointer is
//! up the figure is settled again, as if the stroke had come in one frame.
//! A path that is abandoned, or a tool that changes while the pointer is
//! down, can leave a preview that the stroke does not cover; such a figure
//! is settled again once a rendering replays its history from a blank
//! canvas.

use vstd::prelude::*;
use crate::canvas::{blank_canvas, is_canvas, Canvas};
use crate::figure::FigureView;
use crate::history::{lemma_redone, lemma_render_shows_visible, lemma_undone, redone, replay, undone};
use crate::operation::{lemma_stroke_covers_preview, stroke_of, Instruction, OperationView};

verus! {

/// The instruction `ins`, `n` times over.
pub open spec fn repeated(ins: Instruction, n: nat) -> Seq<Instruction> {
    Seq::new(n, |i: int| ins)
}

/// The instructions of one stroke through `points`: the pointer goes down at
/// the first, moves to each of the next, and goes up at the last.
pub open spec fn drawn(points: Seq<(u8, u8)>) -> Seq<Instruction> {
    seq![Instruction::PointerDown(points[0])] + Seq::new(
        (points.len() - 2) as nat,
        |i: int| Instruction::PointerMove(points[i + 1]),
    ) + seq![Instruction::PointerUp(points.last())]
}

impl FigureView {
    /// Whether the canvas holds what the history counts as painted, and
    /// nothing else: no path is open, and the canvas is the painted
    /// operations replayed onto a blank canvas.
    pub open spec fn settled(self) -> bool {
        &&& self.wf()
        &&& self.path is None
        &&& self.history.committed <= self.history.stack.len()
        &&& self.canvas == replay(
            self.history.stack,
            0,
            self.history.committed as int,
            blank_canvas(),
        )
    }
}

/// Executing one sequence of instructions after another is executing the
/// two joined.
pub proof fn lemma_excute_all_joined(fig: FigureView, a: Seq<Instruction>, b: Seq<Instruction>)
    ensures
        fig.excute_all(a + b) == fig.excute_all(a).excute_all(b),
    decreases b.len(),
{
    if b.len() == 0 {
        assert(a + b =~= a);
    } else {
        lemma_excute_all_joined(fig, a, b.drop_last());
        assert((a + b).drop_last() =~= a + b.drop_last());
        assert((a + b).last() == b.last());
    }
}

/// Undo instructions undo, and touch nothing else.
pub proof fn lemma_undos(fig: FigureView, n: nat)
    ensures
        fig.excute_all(repeated(Instruction::Undo, n)) == (FigureView {
            history: undone(fig.history, n),
            ..fig
        }),
    decreases n,
{
    if n > 0 {
        lemma_undos(fig, (n - 1) as nat);
        assert(repeated(Instruction::Undo, n).drop_last() =~= repeated(
            Instruction::Undo,
            (n - 1) as nat,
        ));
    }
}

/// Redo instructions redo, and touch nothing else.
pub proof fn lemma_redos(fig: FigureView, n: nat)
    ensures
        fig.excute_all(repeated(Instruction::Redo, n)) == (FigureView {
            history: redone(fig.history, n),
            ..fig
        }),
    decreases n,
{
    if n > 0 {
        lemma_redos(fig, (n - 1) as nat);
        assert(repeated(Instruction::Redo, n).drop_last() =~= repeated(
            Instruction::Redo,
            (n - 1) as nat,
        ));
    }
}

/// While the pointer is down and moves, the path grows point by point.
proof fn lemma_path_grows(fig: FigureView, points: Seq<(u8, u8)>, k: nat)
    requires
        k + 1 <= points.len(),
    ensures
        fig.excute_all(
            seq![Instruction::PointerDown(points[0])] + Seq::new(
                k,
                |i: int| Instruction::PointerMove(points[i + 1]),
            ),
        ) == (FigureView { path: Some(points.take((k + 1) as int)), ..fig }),
    decreases k,
{
    let down = seq![Instruction::PointerDown(points[0])];
    let moves = Seq::new(k, |i: int| Instruction::PointerMove(points[i + 1]));
    if k == 0 {
        assert(down + moves =~= down);
        assert(down.drop_last() =~= Seq::<Instruction>::empty());
        assert(fig.excute_all(down.drop_last()) == fig);
        assert(points.take(1) =~= seq![points[0]]);
    } else {
        let fewer = Seq::new((k - 1) as nat, |i: int| Instruction::PointerMove(points[i + 1]));
        lemma_path_grows(fig, points, (k - 1) as nat);
        assert((down + moves).drop_last() =~= down + fewer);
        assert((down + moves).last() == Instruction::PointerMove(points[k as int]));
        assert(points.take(k as int).push(points[k as int]) =~= points.take((k + 1) as int));
    }
}

/// The instructions of a stroke record the stroke, with the tool, colour and
/// brush size in force, and leave no path open.
pub proof fn lemma_drawn_records_stroke(fig: FigureView, points: Seq<(u8, u8)>)
    requires
        points.len() >= 2,
    ensures
        fig.excute_all(drawn(points)) == (FigureView {
            path: None,
            history: fig.history.push(stroke_of(fig.tool, points, fig.color, fig.size)),
            ..fig
        }),
{
    let k = (points.len() - 2) as nat;
    let head = seq![Instruction::PointerDown(points[0])] + Seq::new(
        k,
        |i: int| Instruction::PointerMove(points[i + 1]),
    );
    lemma_path_grows(fig, points, k);
    assert(drawn(points).drop_last() =~= head);
    assert(drawn(points).last() == Instruction::PointerUp(points.last()));
    assert(points.take((k + 1) as int).push(points.last()) =~= points);
}

/// Replaying a stretch of operations depends on that stretch alone.
proof fn lemma_replay_same_stretch(
    s1: Seq<OperationView>,
    s2: Seq<OperationView>,
    from: int,
    to: int,
    c: Canvas,
)
    requires
        0 <= from,
        to <= s1.len(),
        to <= s2.len(),
        forall|i: int| from <= i < to ==> s1[i] == s2[i],
    ensures
        replay(s1, from, to, c) == replay(s2, from, to, c),
    decreases to - from,
{
    if from < to {
        lemma_replay_same_stretch(s1, s2, from, to - 1, c);
    }
}

/// A rendering of a settled figure leaves the operations that show,
/// replayed onto a blank canvas, and the figure settled.
pub proof fn lemma_settled_render(fig: FigureView)
    requires
        fig.settled(),
    ensures
        fig.render().canvas == replay(
            fig.history.stack,
            0,
            fig.history.visible as int,
            blank_canvas(),
        ),
        fig.render().settled(),
        fig.render().history.committed == fig.history.visible,
{
    lemma_render_shows_visible(fig.history, fig.canvas);
    lemma_replay_is_canvas(fig.history.stack, 0, fig.history.visible as int, blank_canvas());
}

/// Replaying onto a canvas gives a canvas.
proof fn lemma_replay_is_canvas(stack: Seq<OperationView>, from: int, to: int, c: Canvas)
    requires
        is_canvas(c),
    ensures
        is_canvas(replay(stack, from, to, c)),
    decreases to - from,
{
    if from < to {
        lemma_replay_is_canvas(stack, from, to - 1, c);
    }
}

/// The figure at the start of a session is settled.
pub proof fn lemma_blank_is_settled()
    ensures
        FigureView::blank().settled(),
{
}

/// A stroke on a settled figure: where nothing is painted that does not
/// show, a frame with the instructions of one stroke leaves the figure
/// settled, with the stroke recorded, showing and painted on top of what
/// showed before.
pub proof fn law_stroke_frame(fig: FigureView, points: Seq<(u8, u8)>)
    requires
        fig.settled(),
        fig.history.committed <= fig.history.visible,
        points.len() >= 2,
    ensures
        ({
            let stroke = stroke_of(fig.tool, points, fig.color, fig.size);
            let after = fig.render_frame(drawn(points));
            &&& after.settled()
            &&& after.history == fig.history.push(stroke).rendered()
            &&& after.canvas == stroke.apply(fig.render().canvas)
        }),
{
    let stroke = stroke_of(fig.tool, points, fig.color, fig.size);
    lemma_drawn_records_stroke(fig, points);
    let recorded = fig.excute_all(drawn(points));
    let visible = fig.history.visible as int;
    lemma_replay_same_stretch(
        fig.history.stack,
        recorded.history.stack,
        0,
        fig.history.committed as int,
        blank_canvas(),
    );
    assert(recorded.settled());
    lemma_settled_render(recorded);
    lemma_settled_render(fig);
    lemma_replay_same_stretch(
        fig.history.stack,
        recorded.history.stack,
        0,
        visible,
        blank_canvas(),
    );
}

/// Frames of undos and frames of redos keep a settled figure settled, and
/// leave on the canvas the operations that show after them, replayed onto a
/// blank canvas.
pub proof fn law_undo_and_redo_frames_keep_settled(fig: FigureView, n: nat)
    requires
        fig.settled(),
    ensures
        fig.render_frame(repeated(Instruction::Undo, n)).settled(),
        fig.render_frame(repeated(Instruction::Redo, n)).settled(),
        fig.render_frame(repeated(Instruction::Undo, n)).canvas == replay(
            fig.history.stack,
            0,
            undone(fig.history, n).visible as int,
            blank_canvas(),
        ),
        fig.render_frame(repeated(Instruction::Redo, n)).canvas == replay(
            fig.history.stack,
            0,
            redone(fig.history, n).visible as int,
            blank_canvas(),
        ),
{
    lemma_undos(fig, n);
    lemma_undone(fig.history, n);
    lemma_settled_render(fig.excute_all(repeated(Instruction::Undo, n)));
    lemma_redos(fig, n);
    lemma_redone(fig.history, n);
    lemma_settled_render(fig.excute_all(repeated(Instruction::Redo, n)));
}

/// Full undo on a settled figure: a frame of at least as many undos as
/// operations show leaves the canvas blank.
pub proof fn law_undo_frame_restores_blank(fig: FigureView, n: nat)
    requires
        fig.settled(),
        n >= fig.history.visible,
    ensures
        fig.render_frame(repeated(Instruction::Undo, n)).canvas == blank_canvas(),
        fig.render_frame(repeated(Instruction::Undo, n)).settled(),
{
    lemma_undos(fig, n);
    lemma_undone(fig.history, n);
    lemma_settled_render(fig.excute_all(repeated(Instruction::Undo, n)));
}

/// Redo inverts undo on a settled figure that shows what is painted: `j`
/// undos, with `j` no more than the operations that show, followed by `j`
/// redos, leave the figure as it was, whether they come in one frame or the
/// undos in one frame and the redos in the next.
pub proof fn law_redo_frame_inverts_undo_frame(fig: FigureView, j: nat)
    requires
        fig.settled(),
        fig.history.committed == fig.history.visible,
        j <= fig.history.visible,
    ensures
        fig.render_frame(repeated(Instruction::Undo, j) + repeated(Instruction::Redo, j)) == fig,
        fig.render_frame(repeated(Instruction::Undo, j)).render_frame(
            repeated(Instruction::Redo, j),
        ) == fig,
{
    let undos = repeated(Instruction::Undo, j);
    let redos = repeated(Instruction::Redo, j);
    lemma_excute_all_joined(fig, undos, redos);
    lemma_undos(fig, j);
    lemma_undone(fig.history, j);
    let back = fig.excute_all(undos);
    lemma_redos(back, j);
    lemma_redone(back.history, j);
    assert(back.excute_all(redos) == fig);
    lemma_settled_render(fig);
    assert(replay(fig.history.stack, fig.history.visible as int, fig.history.visible as int, fig.canvas) == fig.canvas);
    assert(fig.render() == fig);

    lemma_settled_render(back);
    let between = back.render();
    lemma_redos(between, j);
    lemma_redone(between.history, j);
    lemma_settled_render(between.excute_all(redos));
}

/// A stroke after undos leaves nothing to redo: on a settled figure, once a
/// frame has recorded a new stroke, a frame of redos changes nothing.
pub proof fn law_stroke_frame_discards_redo(fig: FigureView, points: Seq<(u8, u8)>, n: nat)
    requires
        fig.settled(),
        fig.history.committed <= fig.history.visible,
        points.len() >= 2,
    ensures
        ({
            let after = fig.render_frame(drawn(points));
            &&& after.history.visible == after.history.stack.len()
            &&& after.history.stack.len() == fig.history.visible + 1
            &&& after.render_frame(repeated(Instruction::Redo, n)) == after
        }),
{
    law_stroke_frame(fig, points);
    let after = fig.render_frame(drawn(points));
    lemma_redos(after, n);
    lemma_redone(after.history, n);
    lemma_settled_render(after);
    assert(replay(after.history.stack, after.history.visible as int, after.history.visible as int, after.canvas) == after.canvas);
}

/// The figure after one frame for each stroke of `strokes`, each frame with
/// the instructions of its stroke.
pub open spec fn stroked(fig: FigureView, strokes: Seq<Seq<(u8, u8)>>) -> FigureView
    decreases strokes.len(),
{
    if strokes.len() == 0 {
        fig
    } else {
        stroked(fig, strokes.drop_last()).render_frame(drawn(strokes.last()))
    }
}

/// Strokes on a settled figure that shows what is painted leave it so, with
/// one more operation showing for each.
pub proof fn lemma_stroked(fig: FigureView, strokes: Seq<Seq<(u8, u8)>>)
    requires
        fig.settled(),
        fig.history.committed == fig.history.visible,
        forall|i: int| 0 <= i < strokes.len() ==> (#[trigger] strokes[i]).len() >= 2,
    ensures
        stroked(fig, strokes).settled(),
        stroked(fig, strokes).history.committed == stroked(fig, strokes).history.visible,
        stroked(fig, strokes).history.visible == fig.history.visible + strokes.len(),
    decreases strokes.len(),
{
    if strokes.len() > 0 {
        lemma_stroked(fig, strokes.drop_last());
        law_stroke_frame(stroked(fig, strokes.drop_last()), strokes.last());
    }
}

/// Full undo gives back the blank canvas: draw any strokes on a fresh
/// figure, a frame for each, then undo as many times as there are strokes.
/// The canvas is as it was before the first stroke: blank.
pub proof fn law_strokes_then_full_undo(strokes: Seq<Seq<(u8, u8)>>)
    requires
        forall|i: int| 0 <= i < strokes.len() ==> (#[trigger] strokes[i]).len() >= 2,
    ensures
        stroked(FigureView::blank(), strokes).render_frame(
            repeated(Instruction::Undo, strokes.len()),
        ).canvas == FigureView::blank().canvas,
{
    lemma_stroked(FigureView::blank(), strokes);
    law_undo_frame_restores_blank(stroked(FigureView::blank(), strokes), strokes.len());
}

/// Redo inverts undo: draw `k` strokes on a fresh figure, a frame for each.
/// Then `j <= k` undos followed by `j` redos leave the figure, and so its
/// canvas, as it was after the strokes.
pub proof fn law_strokes_then_undo_redo(strokes: Seq<Seq<(u8, u8)>>, j: nat)
    requires
        forall|i: int| 0 <= i < strokes.len() ==> (#[trigger] strokes[i]).len() >= 2,
        j <= strokes.len(),
    ensures
        stroked(FigureView::blank(), strokes).render_frame(
            repeated(Instruction::Undo, j) + repeated(Instruction::Redo, j),
        ) == stroked(FigureView::blank(), strokes),
        stroked(FigureView::blank(), strokes).render_frame(
            repeated(Instruction::Undo, j),
        ).render_frame(repeated(Instruction::Redo, j)) == stroked(FigureView::blank(), strokes),
{
    lemma_stroked(FigureView::blank(), strokes);
    law_redo_frame_inverts_undo_frame(stroked(FigureView::blank(), strokes), j);
}

/// A new stroke discards what could be redone: draw strokes on a fresh
/// figure, undo `m` times, and draw one more stroke. Then all that is
/// recorded shows, the strokes that were undone are gone, and redos change
/// nothing.
pub proof fn law_stroke_after_undo_discards_redo(
    strokes: Seq<Seq<(u8, u8)>>,
    m: nat,
    points: Seq<(u8, u8)>,
    n: nat,
)
    requires
        forall|i: int| 0 <= i < strokes.len() ==> (#[trigger] strokes[i]).len() >= 2,
        m <= strokes.len(),
        points.len() >= 2,
    ensures
        ({
            let undone = stroked(FigureView::blank(), strokes).render_frame(
                repeated(Instruction::Undo, m),
            );
            let after = undone.render_frame(drawn(points));
            &&& after.history.stack.len() == strokes.len() - m + 1
            &&& after.history.visible == after.history.stack.len()
            &&& after.render_frame(repeated(Instruction::Redo, n)) == after
        }),
{
    let start = stroked(FigureView::blank(), strokes);
    lemma_stroked(FigureView::blank(), strokes);
    lemma_undos(start, m);
    lemma_undone(start.history, m);
    lemma_settled_render(start.excute_all(repeated(Instruction::Undo, m)));
    let undone = start.render_frame(repeated(Instruction::Undo, m));
    law_stroke_frame_discards_redo(undone, points, n);
}

/// The figure after one rendering for each frame of `frames`, in order.
pub open spec fn ticked(fig: FigureView, frames: Seq<Seq<Instruction>>) -> FigureView
    decreases frames.len(),
{
    if frames.len() == 0 {
        fig
    } else {
        ticked(fig, frames.drop_last()).render_frame(frames.last())
    }
}

/// A figure in the middle of the stroke through `points`, as the ticks
/// leave it once the first `n` instructions of the stroke have come: all
/// that shows is painted, and on top of it lies the preview of the path so
/// far.
pub open spec fn mid_stroke(fig: FigureView, points: Seq<(u8, u8)>, n: int) -> FigureView {
    if n == 0 {
        fig.render()
    } else if n < points.len() {
        FigureView {
            path: Some(points.take(n)),
            history: fig.history.rendered(),
            canvas: stroke_of(fig.tool, points.take(n), fig.color, fig.size).apply(
                fig.render().canvas,
            ),
            ..fig
        }
    } else {
        fig.render_frame(drawn(points))
    }
}

/// The instructions of a stroke, one for each of its points.
proof fn lemma_drawn_instructions(points: Seq<(u8, u8)>)
    requires
        points.len() >= 2,
    ensures
        drawn(points).len() == points.len(),
        drawn(points)[0] == Instruction::PointerDown(points[0]),
        forall|j: int|
            1 <= j < points.len() - 1 ==> #[trigger] drawn(points)[j] == Instruction::PointerMove(
                points[j],
            ),
        drawn(points)[points.len() - 1] == Instruction::PointerUp(points.last()),
{
}

/// A figure that has taken the first `m` instructions of a stroke takes
/// those up to the `n`th: the path grows to the first `n` points, and with
/// the last instruction it is recorded as a stroke and closed.
proof fn lemma_stroke_segment(at: FigureView, points: Seq<(u8, u8)>, m: int, n: int)
    requires
        points.len() >= 2,
        0 <= m <= n <= points.len(),
        0 < m < points.len() ==> at.path == Some(points.take(m)),
        m == points.len() || m < points.len(),
    ensures
        at.excute_all(drawn(points).subrange(m, n)) == (if n == m {
            at
        } else if n < points.len() {
            FigureView { path: Some(points.take(n)), ..at }
        } else {
            FigureView {
                path: None,
                history: at.history.push(stroke_of(at.tool, points, at.color, at.size)),
                ..at
            }
        }),
    decreases n - m,
{
    let segment = drawn(points).subrange(m, n);
    lemma_drawn_instructions(points);
    if n == m {
        assert(segment =~= Seq::<Instruction>::empty());
    } else {
        lemma_stroke_segment(at, points, m, n - 1);
        assert(segment.drop_last() =~= drawn(points).subrange(m, n - 1));
        assert(segment.last() == drawn(points)[n - 1]);
        let before = at.excute_all(segment.drop_last());
        if n - 1 == 0 {
            assert(points.take(1) =~= seq![points[0]]);
        } else if n - 1 < points.len() - 1 {
            assert(before.path == Some(points.take(n - 1)));
            assert(points.take(n - 1).push(points[n - 1]) =~= points.take(n));
        } else {
            assert(before.path == Some(points.take(n - 1)));
            assert(points.take(n - 1).push(points.last()) =~= points);
        }
    }
}

/// A rendering of a settled figure that shows what is painted changes
/// nothing.
proof fn lemma_render_again(fig: FigureView)
    requires
        fig.settled(),
        fig.history.committed == fig.history.visible,
    ensures
        fig.render() == fig,
{
    assert(replay(
        fig.history.stack,
        fig.history.visible as int,
        fig.history.visible as int,
        fig.canvas,
    ) == fig.canvas);
}

/// One tick in the middle of a stroke: a figure that the ticks left after
/// the first `m` instructions of the stroke, or that no tick of the stroke
/// has touched yet, is after the frame with the instructions up to the
/// `n`th as the ticks leave it after the first `n`.
proof fn lemma_stroke_tick(fig: FigureView, points: Seq<(u8, u8)>, m: int, n: int, fresh: bool)
    requires
        fig.settled(),
        fig.history.committed <= fig.history.visible,
        points.len() >= 2,
        0 <= m <= n <= points.len(),
        fresh ==> m == 0,
    ensures
        (if fresh {
            fig
        } else {
            mid_stroke(fig, points, m)
        }).render_frame(drawn(points).subrange(m, n)) == mid_stroke(fig, points, n),
{
    let total = points.len() as int;
    let at = if fresh {
        fig
    } else {
        mid_stroke(fig, points, m)
    };
    let stroke = stroke_of(fig.tool, points, fig.color, fig.size);
    let shown = fig.render().canvas;
    let visible = fig.history.visible as int;
    lemma_settled_render(fig);
    law_stroke_frame(fig, points);
    lemma_drawn_records_stroke(fig, points);
    let whole = fig.render_frame(drawn(points));
    let segment = drawn(points).subrange(m, n);
    let goal = mid_stroke(fig, points, n);
    if m == total {
        assert(segment =~= Seq::<Instruction>::empty());
        assert(at.excute_all(segment) == at);
        if fresh {
        } else {
            lemma_render_again(whole);
        }
        assert(at.render_frame(segment) == goal);
    } else {
        lemma_stroke_segment(at, points, m, n);
        let taken = at.excute_all(drawn(points).subrange(m, n));
        if fresh {
            if n == total {
                assert(drawn(points).subrange(0, n) =~= drawn(points));
            }
            assert(at.render_frame(segment) == goal);
        } else {
            // The ticks have painted all that shows; the history has
            // nothing to add until the stroke is recorded.
            assert(at.history == fig.history.rendered());
            assert(replay(fig.history.stack, visible, visible, at.canvas) == at.canvas);
            if m == 0 {
                lemma_render_again(fig.render());
            }
            if n == m {
                if m > 0 {
                    lemma_stroke_covers_preview(
                        fig.tool,
                        points.take(m),
                        m,
                        fig.color,
                        fig.size,
                        shown,
                    );
                    assert(points.take(m).take(m) =~= points.take(m));
                }
                assert(at.render_frame(segment) == goal);
            } else if n < total {
                if m > 0 {
                    lemma_stroke_covers_preview(
                        fig.tool,
                        points.take(n),
                        m,
                        fig.color,
                        fig.size,
                        shown,
                    );
                    assert(points.take(n).take(m) =~= points.take(m));
                }
                assert(at.render_frame(segment) == goal);
            } else {
                let recorded = taken.history;
                assert(recorded.stack.len() == visible + 1);
                assert(recorded.stack[visible] == stroke);
                assert(replay(recorded.stack, visible, visible, at.canvas) == at.canvas);
                assert(replay(recorded.stack, visible, visible + 1, at.canvas) == stroke.apply(
                    at.canvas,
                ));
                if m > 0 {
                    lemma_stroke_covers_preview(fig.tool, points, m, fig.color, fig.size, shown);
                }
                assert(taken.render().history == whole.history);
                assert(taken.render().canvas == whole.canvas);
                assert(whole.path is None);
                assert(taken.render() == whole);
                assert(at.render_frame(segment) == goal);
            }
        }
    }
}

/// A stroke drawn over several ticks: however the instructions of one
/// stroke are spread over frames, empty frames among them, once the pointer
/// is up a settled figure is as if the stroke had come in one frame. The
/// previews that the ticks painted on the way lie under the stroke; the
/// figure is settled, with the stroke recorded, showing and painted.
pub proof fn law_stroke_over_ticks(
    fig: FigureView,
    points: Seq<(u8, u8)>,
    frames: Seq<Seq<Instruction>>,
)
    requires
        fig.settled(),
        fig.history.committed <= fig.history.visible,
        points.len() >= 2,
        frames.flatten() == drawn(points),
    ensures
        ticked(fig, frames) == fig.render_frame(drawn(points)),
        ticked(fig, frames).settled(),
        ticked(fig, frames).history == fig.history.push(
            stroke_of(fig.tool, points, fig.color, fig.size),
        ).rendered(),
{
    lemma_drawn_instructions(points);
    assert(frames.len() > 0) by {
        if frames.len() == 0 {
            assert(frames.flatten() =~= Seq::<Instruction>::empty());
        }
    }
    assert(drawn(points).take(points.len() as int) =~= drawn(points));
    lemma_stroke_ticks(fig, points, frames, points.len() as int);
    law_stroke_frame(fig, points);
}

/// The ticks of the first `n` instructions of a stroke leave the figure in
/// the middle of the stroke.
proof fn lemma_stroke_ticks(
    fig: FigureView,
    points: Seq<(u8, u8)>,
    frames: Seq<Seq<Instruction>>,
    n: int,
)
    requires
        fig.settled(),
        fig.history.committed <= fig.history.visible,
        points.len() >= 2,
        0 <= n <= points.len(),
        frames.len() > 0,
        frames.flatten() == drawn(points).take(n),
    ensures
        ticked(fig, frames) == mid_stroke(fig, points, n),
    decreases frames.len(),
{
    lemma_drawn_instructions(points);
    let front = frames.drop_last();
    let last = frames.last();
    assert(front.push(last) =~= frames);
    front.lemma_flatten_push(last);
    let m = n - last.len();
    assert(front.flatten() + last == drawn(points).take(n));
    assert(front.flatten().len() + last.len() == n);
    let joined = front.flatten() + last;
    assert(front.flatten() =~= joined.take(m));
    assert(last =~= joined.subrange(m, n));
    assert(joined.take(m) =~= drawn(points).take(m));
    assert(joined.subrange(m, n) =~= drawn(points).subrange(m, n));
    assert(last == drawn(points).subrange(m, n));
    assert(ticked(fig, frames) == ticked(fig, front).render_frame(last));
    if front.len() == 0 {
        assert(front.flatten() =~= Seq::<Instruction>::empty());
        assert(m == 0);
        assert(ticked(fig, front) == fig);
        lemma_stroke_tick(fig, points, 0, n, true);
    } else {
        lemma_stroke_ticks(fig, points, front, m);
        lemma_stroke_tick(fig, points, m, n, false);
    }
}

} // verus!
