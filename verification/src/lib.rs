//! A drawing-instruction engine for a shared drawing surface.
//!
//! A drawing session is an ordered log of [`Instruction`]s. The engine groups
//! them into strokes, keeps an undo/redo history, rasterizes the strokes into
//! a fixed-size pixel grid, and batches the per-tick frames into chunks so
//! that a remote peer replaying the same frames paints the same pixels.
//!
//! Every function is verified against a contract stated over mathematical
//! models: a canvas is a grid of colours, a stroke is a set of pixels, a
//! history is a sequence of operations with two cursors.
//!
//! - [`canvas`]: colours, the pixel grid and its model, painting.
//! - [`draw`]: points, square brushes, thin and wide lines; [`threshold`]:
//!   how far a wide line fills sideways.
//! - [`operation`]: instructions, and the strokes that they become.
//! - [`history`]: the undo/redo stack and its rendering.
//! - [`figure`]: the interpreter of instructions; [`figure_laws`]: what
//!   holds of it over whole frames.
//! - [`frame`], [`chunk`], [`wire`]: frames, their batching into chunks, and
//!   the bytes of a chunk.
//! - [`pad`]: what a session does on each event; [`protocol`]: the messages
//!   of the game server.
//! - [`hex`]: colours from text.

pub mod canvas;
pub mod chunk;
pub mod consts;
pub mod draw;
pub mod figure;
pub mod figure_laws;
pub mod frame;
pub mod hex;
pub mod history;
pub mod operation;
pub mod pad;
pub mod protocol;
pub mod threshold;
pub mod wire;

pub use canvas::{Color, Data};
pub use chunk::{ChunkLoader, ChunkUnloader};
pub use figure::{Figure, FigureLocal};
pub use frame::Frame;
pub use hex::parse_color;
pub use history::History;
pub use operation::{Instruction, Operation, Tool};
pub use pad::{Drawpad, DrawpadMsg, DrawpadReq, PointerAction, StreamMode};
