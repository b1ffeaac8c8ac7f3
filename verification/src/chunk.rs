//! Chunks: frames batched for transport, and unpacked again.
//!
//! A [`ChunkLoader`] gathers frames and hands them back as one chunk once
//! there are `SIZE` of them. A [`ChunkUnloader`] takes a received chunk and
//! hands out its frames one per call. No instruction is lost or handed out
//! twice: a new chunk that arrives while frames of the last one are still
//! waiting flushes those frames, joined into one, before it takes their
//! place.

use vstd::prelude::*;
use vstd::arithmetic::div_mod::lemma_fundamental_div_mod_converse;
use vstd::seq_lib::lemma_flatten_concat;
use crate::frame::Frame;
use crate::operation::Instruction;

verus! {

/// The model of a sequence of frames: the instructions of each.
pub type Frames = Seq<Seq<Instruction>>;

/// The instruction sequences of the frames of `chunk`.
pub open spec fn frames_of(chunk: Seq<Frame>) -> Frames {
    chunk.map_values(|f: Frame| f@)
}

/// What one call of an unloader takes: a new chunk, or nothing.
pub type Arrival = Option<Frames>;

/// The frame that an unloader with the frames `pending` hands out. With a
/// new chunk it is all that is pending, joined in order; without one it is
/// the first pending frame, or an empty frame if nothing is pending.
pub open spec fn unloaded_frame(pending: Frames, arrival: Arrival) -> Seq<Instruction> {
    match arrival {
        Some(_) => pending.flatten(),
        None => if pending.len() > 0 {
            pending[0]
        } else {
            Seq::empty()
        },
    }
}

/// The frames that are pending after the call: the new chunk, or what was
/// pending but for the frame handed out.
pub open spec fn unloaded_rest(pending: Frames, arrival: Arrival) -> Frames {
    match arrival {
        Some(chunk) => chunk,
        None => if pending.len() > 0 {
            pending.drop_first()
        } else {
            pending
        },
    }
}

/// Hands out the frames of received chunks, one per call.
pub struct ChunkUnloader {
    chunk: Vec<Frame>,
    frame_idx: usize,
}

impl View for ChunkUnloader {
    type V = Frames;

    /// The frames that are still to be handed out.
    closed spec fn view(&self) -> Frames {
        frames_of(self.chunk@).skip(self.frame_idx as int)
    }
}

impl ChunkUnloader {
    /// The cursor is within the chunk.
    pub closed spec fn wf(&self) -> bool {
        self.frame_idx <= self.chunk.len()
    }

    /// An unloader with nothing pending.
    pub fn new() -> (u: Self)
        ensures
            u@ == Frames::empty(),
            u.wf(),
    {
        let u = Self { chunk: Vec::new(), frame_idx: 0 };
        assert(u@ =~= Frames::empty());
        u
    }

    /// Hands out the next frame. With a new chunk, the frame is everything
    /// that was still pending, joined in order, and the new chunk is pending
    /// afterwards. Without one, the frame is the first pending frame, or an
    /// empty frame once nothing is pending.
    pub fn unload(&mut self, new_chunk: Option<Vec<Frame>>) -> (frame: Frame)
        requires
            old(self).wf(),
        ensures
            frame@ == unloaded_frame(
                old(self)@,
                match new_chunk {
                    Some(c) => Some(frames_of(c@)),
                    None => None,
                },
            ),
            final(self)@ == unloaded_rest(
                old(self)@,
                match new_chunk {
                    Some(c) => Some(frames_of(c@)),
                    None => None,
                },
            ),
            final(self).wf(),
    {
        if let Some(new_chunk) = new_chunk {
            let mut instructions: Vec<Instruction> = Vec::new();
            let ghost pending = self@;
            let mut idx: usize = self.frame_idx;
            proof {
                assert(pending.take(0) =~= Frames::empty());
                assert(Frames::empty().flatten() =~= Seq::<Instruction>::empty());
            }
            while idx < self.chunk.len()
                invariant
                    self.frame_idx == old(self).frame_idx,
                    self.frame_idx <= idx <= self.chunk.len(),
                    self.chunk.len() == old(self).chunk.len(),
                    pending == old(self)@,
                    forall|k: int| idx <= k < self.chunk.len() ==> self.chunk[k] == old(self).chunk[k],
                    instructions@ == pending.take(idx - self.frame_idx).flatten(),
                decreases self.chunk.len() - idx,
            {
                proof {
                    let n = idx - self.frame_idx;
                    assert(pending.take(n + 1) =~= pending.take(n).push(pending[n]));
                    pending.take(n).lemma_flatten_push(pending[n]);
                    assert(pending[n] == self.chunk[idx as int]@);
                }
                instructions.append(&mut self.chunk[idx].instructions);
                idx = idx + 1;
            }
            proof {
                assert(pending.take(idx - self.frame_idx) =~= pending);
            }
            self.chunk = new_chunk;
            self.frame_idx = 0;
            assert(self@ =~= frames_of(new_chunk@));
            return Frame { instructions };
        } else {
            if self.frame_idx < self.chunk.len() {
                let mut frame = Frame { instructions: Vec::new() };
                std::mem::swap(&mut frame, &mut self.chunk[self.frame_idx]);
                self.frame_idx += 1;
                assert(self@ =~= old(self)@.drop_first());
                return frame;
            } else {
                return Frame { instructions: Vec::new() };
            }
        }
    }
}

/// The chunk that a loader of chunk size `size` hands back when it holds
/// `buffered` and takes `f`: all of them, once that makes `size` frames.
pub open spec fn loaded_chunk(size: nat, buffered: Frames, f: Seq<Instruction>) -> Option<Frames> {
    if buffered.len() + 1 == size {
        Some(buffered.push(f))
    } else {
        None
    }
}

/// The frames that the loader holds after the call: none once it has handed
/// back a chunk, else `f` after those it held.
pub open spec fn loaded_rest(size: nat, buffered: Frames, f: Seq<Instruction>) -> Frames {
    if buffered.len() + 1 == size {
        Seq::empty()
    } else {
        buffered.push(f)
    }
}

/// Gathers frames into chunks of `SIZE` frames.
pub struct ChunkLoader<const SIZE: usize> {
    chunk: Option<Vec<Frame>>,
}

impl<const SIZE: usize> View for ChunkLoader<SIZE> {
    type V = Frames;

    /// The frames gathered since the last chunk.
    closed spec fn view(&self) -> Frames {
        match self.chunk {
            Some(c) => frames_of(c@),
            None => Seq::empty(),
        }
    }
}

impl<const SIZE: usize> ChunkLoader<SIZE> {
    /// A chunk holds at least one frame, and the loader holds less than a
    /// chunk.
    pub open spec fn wf(&self) -> bool {
        SIZE >= 1 && self@.len() < SIZE
    }

    /// A loader that holds no frame.
    pub fn new() -> (l: Self)
        ensures
            l@ == Frames::empty(),
            SIZE >= 1 ==> l.wf(),
    {
        Self { chunk: None }
    }

    /// Takes the frame `f`. Once the loader holds `SIZE` frames it hands
    /// them back as a chunk, in the order they came, and holds none.
    pub fn load(&mut self, f: Frame) -> (full: Option<Vec<Frame>>)
        requires
            old(self).wf(),
        ensures
            loaded_chunk(SIZE as nat, old(self)@, f@) == match full {
                Some(c) => Some(frames_of(c@)),
                None => None,
            },
            final(self)@ == loaded_rest(SIZE as nat, old(self)@, f@),
            final(self).wf(),
    {
        let mut chunk = match self.chunk.take() {
            Some(chunk) => chunk,
            None => Vec::with_capacity(SIZE),
        };
        proof {
            assert(frames_of(chunk@) =~= old(self)@);
        }
        chunk.push(f);
        proof {
            assert(frames_of(chunk@) =~= old(self)@.push(f@));
        }
        if chunk.len() == SIZE {
            Some(chunk)
        } else {
            self.chunk = Some(chunk);
            None
        }
    }
}

/// A loader of chunk size `size` fed the frames of `frames` in order, from
/// holding none: the frames it holds in the end, and the chunks it handed
/// back on the way.
pub open spec fn feed(size: nat, frames: Frames) -> (Frames, Seq<Frames>)
    decreases frames.len(),
{
    if frames.len() == 0 {
        (Seq::empty(), Seq::empty())
    } else {
        let (buffered, chunks) = feed(size, frames.drop_last());
        let rest = loaded_rest(size, buffered, frames.last());
        match loaded_chunk(size, buffered, frames.last()) {
            Some(c) => (rest, chunks.push(c)),
            None => (rest, chunks),
        }
    }
}

/// An unloader with the frames `pending` called once for each arrival of
/// `arrivals` in order: the frames pending in the end, and the frames handed
/// out on the way.
pub open spec fn drain(pending: Frames, arrivals: Seq<Arrival>) -> (Frames, Frames)
    decreases arrivals.len(),
{
    if arrivals.len() == 0 {
        (pending, Seq::empty())
    } else {
        let (rest, out) = drain(pending, arrivals.drop_last());
        (
            unloaded_rest(rest, arrivals.last()),
            out.push(unloaded_frame(rest, arrivals.last())),
        )
    }
}

/// The frames of all the chunks among `arrivals`, in order.
pub open spec fn arrived(arrivals: Seq<Arrival>) -> Frames
    decreases arrivals.len(),
{
    if arrivals.len() == 0 {
        Seq::empty()
    } else {
        match arrivals.last() {
            Some(chunk) => arrived(arrivals.drop_last()) + chunk,
            None => arrived(arrivals.drop_last()),
        }
    }
}

/// A loader hands back one chunk of `size` frames for every `size` frames it
/// takes: the chunks, joined in the order they were handed back, followed by
/// the frames still held, are the frames taken, in the order they came.
pub proof fn law_loader_batches(size: nat, frames: Frames)
    requires
        size >= 1,
    ensures
        ({
            let (buffered, chunks) = feed(size, frames);
            &&& chunks.flatten() + buffered == frames
            &&& forall|i: int| 0 <= i < chunks.len() ==> (#[trigger] chunks[i]).len() == size
            &&& chunks.len() == frames.len() / size
            &&& buffered.len() == frames.len() % size
        }),
    decreases frames.len(),
{
    let (buffered, chunks) = feed(size, frames);
    if frames.len() == 0 {
        assert(chunks.flatten() =~= Frames::empty());
        assert(chunks.flatten() + buffered =~= frames);
        lemma_fundamental_div_mod_converse(0, size as int, 0, 0);
    } else {
        law_loader_batches(size, frames.drop_last());
        let (before, emitted) = feed(size, frames.drop_last());
        let n = frames.drop_last().len() as int;
        assert(n == size * emitted.len() + before.len()) by {
            vstd::arithmetic::div_mod::lemma_fundamental_div_mod(n, size as int);
        }
        assert(emitted.flatten() + before + seq![frames.last()] =~= frames) by {
            assert(frames.drop_last() + seq![frames.last()] =~= frames);
        }
        if before.len() + 1 == size {
            emitted.lemma_flatten_push(before.push(frames.last()));
            assert(chunks.flatten() + buffered =~= frames);
            assert(n + 1 == size * (emitted.len() + 1) + 0) by (nonlinear_arith)
                requires
                    n == size * emitted.len() + before.len(),
                    before.len() + 1 == size,
            ;
            lemma_fundamental_div_mod_converse(n + 1, size as int, (emitted.len() + 1) as int, 0);
        } else {
            assert(chunks.flatten() + buffered =~= frames);
            lemma_fundamental_div_mod_converse(
                n + 1,
                size as int,
                emitted.len() as int,
                (before.len() + 1) as int,
            );
        }
    }
}

/// An unloader neither loses an instruction nor hands one out twice: the
/// instructions handed out, followed by those still pending, are the
/// instructions that were pending at first, followed by those of the chunks
/// that arrived, all in their order. Every call hands out one frame.
pub proof fn law_unloader_conserves(pending: Frames, arrivals: Seq<Arrival>)
    ensures
        ({
            let (rest, out) = drain(pending, arrivals);
            &&& out.len() == arrivals.len()
            &&& out.flatten() + rest.flatten() == pending.flatten() + arrived(arrivals).flatten()
        }),
    decreases arrivals.len(),
{
    let (rest, out) = drain(pending, arrivals);
    if arrivals.len() == 0 {
        assert(out.flatten() =~= Seq::<Instruction>::empty());
        assert(arrived(arrivals).flatten() =~= Seq::<Instruction>::empty());
        assert(out.flatten() + rest.flatten() =~= pending.flatten() + arrived(arrivals).flatten());
    } else {
        law_unloader_conserves(pending, arrivals.drop_last());
        let (rest0, out0) = drain(pending, arrivals.drop_last());
        let frame = unloaded_frame(rest0, arrivals.last());
        out0.lemma_flatten_push(frame);
        match arrivals.last() {
            Some(chunk) => {
                lemma_flatten_concat(arrived(arrivals.drop_last()), chunk);
                assert(out.flatten() + rest.flatten() =~= pending.flatten() + arrived(
                    arrivals,
                ).flatten());
            },
            None => {
                if rest0.len() > 0 {
                    assert(rest0.flatten() =~= rest0[0] + rest0.drop_first().flatten());
                }
                assert(out.flatten() + rest.flatten() =~= pending.flatten() + arrived(
                    arrivals,
                ).flatten());
            },
        }
    }
}

} // verus!
