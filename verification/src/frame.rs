//! Frames: the instructions of one tick.

use vstd::prelude::*;
use crate::operation::Instruction;

verus! {

/// The instructions gathered over one tick, in the order they came. Its view
/// is the sequence of its instructions.
#[derive(Debug, PartialEq, Eq)]
pub struct Frame {
    pub instructions: Vec<Instruction>,
}

impl View for Frame {
    type V = Seq<Instruction>;

    open spec fn view(&self) -> Seq<Instruction> {
        self.instructions@
    }
}

impl Frame {
    /// A frame without instructions.
    pub fn new() -> (f: Self)
        ensures
            f@ == Seq::<Instruction>::empty(),
    {
        Self { instructions: Vec::new() }
    }

    /// Adds `ins` after the instructions of the frame.
    pub fn push(&mut self, ins: Instruction)
        ensures
            final(self)@ == old(self)@.push(ins),
    {
        self.instructions.push(ins);
    }
}

} // verus!
