//! The wire format of a chunk.
//!
//! A chunk travels as bytes. Every integer is little-endian and of fixed
//! width; nothing is padded.
//!
//! - A chunk is the number of its frames in 8 bytes, then the frames.
//! - A frame is the number of its instructions in 8 bytes, then the
//!   instructions.
//! - An instruction is its tag in 4 bytes, then what it carries: a point is
//!   two bytes, `x` then `y`; a colour is three bytes, red, green, blue; a
//!   tool is its tag in 4 bytes.
//!
//! The tags of the instructions count from 0 in the order in which
//! [`Instruction`] declares them, those of the tools likewise. This is the
//! layout that `bincode` gives these types with fixed-width integers, so a
//! peer that encodes with it is understood, byte for byte.
//!
//! Decoding trusts nothing: any byte sequence is either decoded or refused,
//! and what is decoded is exactly what encodes to the bytes that were read.
//! Bytes after the chunk are ignored.

use vstd::arithmetic::div_mod::{lemma_fundamental_div_mod, lemma_fundamental_div_mod_converse};
use vstd::prelude::*;
use crate::canvas::Color;
use crate::chunk::{frames_of, Frames};
use crate::frame::Frame;
use crate::operation::{Instruction, Tool};

verus! {

/// The 4 bytes of `v`, lowest first.
pub open spec fn u32_le(v: int) -> Seq<u8> {
    seq![
        (v % 0x100) as u8,
        (v / 0x100 % 0x100) as u8,
        (v / 0x100 / 0x100 % 0x100) as u8,
        (v / 0x100 / 0x100 / 0x100 % 0x100) as u8,
    ]
}

/// The number that the first 4 bytes of `b` hold, lowest first.
pub open spec fn u32_of(b: Seq<u8>) -> int {
    b[0] + 0x100 * (b[1] + 0x100 * (b[2] + 0x100 * b[3]))
}

/// The 8 bytes of `v`, lowest first.
pub open spec fn u64_le(v: int) -> Seq<u8> {
    u32_le(v % 0x1_0000_0000) + u32_le(v / 0x1_0000_0000)
}

/// The number that the first 8 bytes of `b` hold, lowest first.
pub open spec fn u64_of(b: Seq<u8>) -> int {
    u32_of(b) + 0x1_0000_0000 * u32_of(b.skip(4))
}

/// The tag of a tool.
pub open spec fn tool_tag(t: Tool) -> int {
    match t {
        Tool::Eraser => 0,
        Tool::Pencil => 1,
    }
}

/// The tag of an instruction.
pub open spec fn instruction_tag(ins: Instruction) -> int {
    match ins {
        Instruction::PointerDown(_) => 0,
        Instruction::PointerMove(_) => 1,
        Instruction::PointerUp(_) => 2,
        Instruction::SetColor(_) => 3,
        Instruction::SetTool(_) => 4,
        Instruction::Clear => 5,
        Instruction::Redo => 6,
        Instruction::Undo => 7,
        Instruction::Reset => 8,
    }
}

/// The bytes that an instruction carries after its tag.
pub open spec fn instruction_payload(ins: Instruction) -> Seq<u8> {
    match ins {
        Instruction::PointerDown(c) => seq![c.0, c.1],
        Instruction::PointerMove(c) => seq![c.0, c.1],
        Instruction::PointerUp(c) => seq![c.0, c.1],
        Instruction::SetColor(c) => seq![c.r, c.g, c.b],
        Instruction::SetTool(t) => u32_le(tool_tag(t)),
        Instruction::Clear => Seq::empty(),
        Instruction::Redo => Seq::empty(),
        Instruction::Undo => Seq::empty(),
        Instruction::Reset => Seq::empty(),
    }
}

/// The bytes of an instruction.
pub open spec fn instruction_bytes(ins: Instruction) -> Seq<u8> {
    u32_le(instruction_tag(ins)) + instruction_payload(ins)
}

/// The bytes of the instructions of `s`, one after the other.
pub open spec fn instructions_bytes(s: Seq<Instruction>) -> Seq<u8>
    decreases s.len(),
{
    if s.len() == 0 {
        Seq::empty()
    } else {
        instructions_bytes(s.drop_last()) + instruction_bytes(s.last())
    }
}

/// The bytes of a frame.
pub open spec fn frame_bytes(frame: Seq<Instruction>) -> Seq<u8> {
    u64_le(frame.len() as int) + instructions_bytes(frame)
}

/// The bytes of the frames of `frames`, one after the other.
pub open spec fn frames_bytes(frames: Frames) -> Seq<u8>
    decreases frames.len(),
{
    if frames.len() == 0 {
        Seq::empty()
    } else {
        frames_bytes(frames.drop_last()) + frame_bytes(frames.last())
    }
}

/// The bytes of a chunk.
pub open spec fn chunk_bytes(frames: Frames) -> Seq<u8> {
    u64_le(frames.len() as int) + frames_bytes(frames)
}

/// The instruction that `b` starts with and the number of bytes it takes,
/// or `None` where `b` starts with no instruction.
pub open spec fn parse_instruction(b: Seq<u8>) -> Option<(Instruction, nat)> {
    if b.len() < 4 {
        None
    } else {
        let tag = u32_of(b);
        if tag <= 2 {
            if b.len() < 6 {
                None
            } else if tag == 0 {
                Some((Instruction::PointerDown((b[4], b[5])), 6))
            } else if tag == 1 {
                Some((Instruction::PointerMove((b[4], b[5])), 6))
            } else {
                Some((Instruction::PointerUp((b[4], b[5])), 6))
            }
        } else if tag == 3 {
            if b.len() < 7 {
                None
            } else {
                Some((Instruction::SetColor(Color { r: b[4], g: b[5], b: b[6] }), 7))
            }
        } else if tag == 4 {
            if b.len() < 8 {
                None
            } else if u32_of(b.skip(4)) == 0 {
                Some((Instruction::SetTool(Tool::Eraser), 8))
            } else if u32_of(b.skip(4)) == 1 {
                Some((Instruction::SetTool(Tool::Pencil), 8))
            } else {
                None
            }
        } else if tag == 5 {
            Some((Instruction::Clear, 4))
        } else if tag == 6 {
            Some((Instruction::Redo, 4))
        } else if tag == 7 {
            Some((Instruction::Undo, 4))
        } else if tag == 8 {
            Some((Instruction::Reset, 4))
        } else {
            None
        }
    }
}

/// The `count` instructions that `b` starts with and the number of bytes
/// they take, or `None` where `b` does not start with that many.
pub open spec fn parse_instructions(b: Seq<u8>, count: nat) -> Option<(Seq<Instruction>, nat)>
    decreases count,
{
    if count == 0 {
        Some((Seq::empty(), 0))
    } else {
        match parse_instructions(b, (count - 1) as nat) {
            Some((items, n)) => match parse_instruction(b.skip(n as int)) {
                Some((ins, m)) => Some((items.push(ins), n + m)),
                None => None,
            },
            None => None,
        }
    }
}

/// The frame that `b` starts with and the number of bytes it takes.
pub open spec fn parse_frame(b: Seq<u8>) -> Option<(Seq<Instruction>, nat)> {
    if b.len() < 8 {
        None
    } else {
        match parse_instructions(b.skip(8), u64_of(b) as nat) {
            Some((items, n)) => Some((items, 8 + n)),
            None => None,
        }
    }
}

/// The `count` frames that `b` starts with and the number of bytes they
/// take.
pub open spec fn parse_frames(b: Seq<u8>, count: nat) -> Option<(Frames, nat)>
    decreases count,
{
    if count == 0 {
        Some((Seq::empty(), 0))
    } else {
        match parse_frames(b, (count - 1) as nat) {
            Some((frames, n)) => match parse_frame(b.skip(n as int)) {
                Some((frame, m)) => Some((frames.push(frame), n + m)),
                None => None,
            },
            None => None,
        }
    }
}

/// The chunk that `b` starts with and the number of bytes it takes, or
/// `None` where `b` starts with no chunk.
pub open spec fn parse_chunk(b: Seq<u8>) -> Option<(Frames, nat)> {
    if b.len() < 8 {
        None
    } else {
        match parse_frames(b.skip(8), u64_of(b) as nat) {
            Some((frames, n)) => Some((frames, 8 + n)),
            None => None,
        }
    }
}

/// Adds the 4 bytes of `v` to `out`.
fn push_u32(out: &mut Vec<u8>, v: u32)
    ensures
        final(out)@ == old(out)@ + u32_le(v as int),
{
    out.push((v % 0x100) as u8);
    out.push((v / 0x100 % 0x100) as u8);
    out.push((v / 0x100 / 0x100 % 0x100) as u8);
    out.push((v / 0x100 / 0x100 / 0x100 % 0x100) as u8);
    assert(out@ =~= old(out)@ + u32_le(v as int));
}

/// Adds the 8 bytes of `v` to `out`.
fn push_u64(out: &mut Vec<u8>, v: u64)
    ensures
        final(out)@ == old(out)@ + u64_le(v as int),
{
    push_u32(out, (v % 0x1_0000_0000) as u32);
    push_u32(out, (v / 0x1_0000_0000) as u32);
    assert(out@ =~= old(out)@ + u64_le(v as int));
}

/// Reads the 4 bytes at `pos`.
fn read_u32(bytes: &[u8], pos: usize) -> (v: u32)
    requires
        pos + 4 <= bytes@.len(),
    ensures
        v == u32_of(bytes@.skip(pos as int)),
{
    let b0: u32 = bytes[pos] as u32;
    let b1: u32 = bytes[pos + 1] as u32;
    let b2: u32 = bytes[pos + 2] as u32;
    let b3: u32 = bytes[pos + 3] as u32;
    b0 + 0x100 * (b1 + 0x100 * (b2 + 0x100 * b3))
}

/// Reads the 8 bytes at `pos`.
fn read_u64(bytes: &[u8], pos: usize) -> (v: u64)
    requires
        pos + 8 <= bytes@.len(),
    ensures
        v == u64_of(bytes@.skip(pos as int)),
{
    let len = bytes.len();
    let lo: u64 = read_u32(bytes, pos) as u64;
    let hi: u64 = read_u32(bytes, pos + 4) as u64;
    assert(bytes@.skip(pos as int).skip(4) =~= bytes@.skip(pos + 4));
    lo + 0x1_0000_0000 * hi
}

/// Adds the bytes of `ins` to `out`.
fn encode_instruction(out: &mut Vec<u8>, ins: &Instruction)
    ensures
        final(out)@ == old(out)@ + instruction_bytes(*ins),
{
    match ins {
        Instruction::PointerDown(c) => {
            push_u32(out, 0);
            out.push(c.0);
            out.push(c.1);
        },
        Instruction::PointerMove(c) => {
            push_u32(out, 1);
            out.push(c.0);
            out.push(c.1);
        },
        Instruction::PointerUp(c) => {
            push_u32(out, 2);
            out.push(c.0);
            out.push(c.1);
        },
        Instruction::SetColor(c) => {
            push_u32(out, 3);
            out.push(c.r);
            out.push(c.g);
            out.push(c.b);
        },
        Instruction::SetTool(t) => {
            push_u32(out, 4);
            match t {
                Tool::Eraser => push_u32(out, 0),
                Tool::Pencil => push_u32(out, 1),
            }
        },
        Instruction::Clear => {
            push_u32(out, 5);
        },
        Instruction::Redo => {
            push_u32(out, 6);
        },
        Instruction::Undo => {
            push_u32(out, 7);
        },
        Instruction::Reset => {
            push_u32(out, 8);
        },
    }
    assert(out@ =~= old(out)@ + instruction_bytes(*ins));
}

/// Adds the bytes of `frame` to `out`.
fn encode_frame(out: &mut Vec<u8>, frame: &Frame)
    ensures
        final(out)@ == old(out)@ + frame_bytes(frame@),
{
    push_u64(out, frame.instructions.len() as u64);
    let ghost head = out@;
    let mut i: usize = 0;
    assert(instructions_bytes(frame@.take(0)) =~= Seq::<u8>::empty());
    while i < frame.instructions.len()
        invariant
            0 <= i <= frame.instructions.len(),
            out@ == head + instructions_bytes(frame@.take(i as int)),
        decreases frame.instructions.len() - i,
    {
        encode_instruction(out, &frame.instructions[i]);
        proof {
            assert(frame@.take(i + 1).drop_last() =~= frame@.take(i as int));
            assert(out@ =~= head + instructions_bytes(frame@.take(i + 1)));
        }
        i = i + 1;
    }
    assert(frame@.take(frame.instructions.len() as int) =~= frame@);
    assert(out@ =~= old(out)@ + frame_bytes(frame@));
}

/// The bytes of `chunk`.
pub fn encode_chunk(chunk: &Vec<Frame>) -> (bytes: Vec<u8>)
    ensures
        bytes@ == chunk_bytes(frames_of(chunk@)),
{
    let mut out: Vec<u8> = Vec::new();
    push_u64(&mut out, chunk.len() as u64);
    let ghost head = out@;
    let ghost frames = frames_of(chunk@);
    let mut i: usize = 0;
    assert(frames_bytes(frames.take(0)) =~= Seq::<u8>::empty());
    while i < chunk.len()
        invariant
            0 <= i <= chunk.len(),
            frames == frames_of(chunk@),
            out@ == head + frames_bytes(frames.take(i as int)),
        decreases chunk.len() - i,
    {
        encode_frame(&mut out, &chunk[i]);
        proof {
            assert(frames.take(i + 1).drop_last() =~= frames.take(i as int));
            assert(frames.take(i + 1).last() == chunk@[i as int]@);
            assert(out@ =~= head + frames_bytes(frames.take(i + 1)));
        }
        i = i + 1;
    }
    assert(frames.take(chunk.len() as int) =~= frames);
    assert(out@ =~= chunk_bytes(frames));
    out
}

/// Once some instruction fails to parse, no greater count parses.
pub proof fn lemma_instructions_fail_on(b: Seq<u8>, count: nat, more: nat)
    requires
        parse_instructions(b, count) is None,
        count <= more,
    ensures
        parse_instructions(b, more) is None,
    decreases more,
{
    if count < more {
        lemma_instructions_fail_on(b, count, (more - 1) as nat);
    }
}

/// Once some frame fails to parse, no greater count parses.
pub proof fn lemma_frames_fail_on(b: Seq<u8>, count: nat, more: nat)
    requires
        parse_frames(b, count) is None,
        count <= more,
    ensures
        parse_frames(b, more) is None,
    decreases more,
{
    if count < more {
        lemma_frames_fail_on(b, count, (more - 1) as nat);
    }
}

/// Decodes the instruction at `pos`: the instruction and where the next one
/// starts.
fn decode_instruction(bytes: &[u8], pos: usize) -> (r: Option<(Instruction, usize)>)
    requires
        pos <= bytes@.len(),
    ensures
        match r {
            Some((ins, next)) => pos < next <= bytes@.len() && parse_instruction(
                bytes@.skip(pos as int),
            ) == Some((ins, (next - pos) as nat)),
            None => parse_instruction(bytes@.skip(pos as int)) is None,
        },
{
    let len = bytes.len();
    let ghost b = bytes@.skip(pos as int);
    if len - pos < 4 {
        return None;
    }
    let tag = read_u32(bytes, pos);
    if tag <= 2 {
        if len - pos < 6 {
            return None;
        }
        let c = (bytes[pos + 4], bytes[pos + 5]);
        if tag == 0 {
            Some((Instruction::PointerDown(c), pos + 6))
        } else if tag == 1 {
            Some((Instruction::PointerMove(c), pos + 6))
        } else {
            Some((Instruction::PointerUp(c), pos + 6))
        }
    } else if tag == 3 {
        if len - pos < 7 {
            return None;
        }
        let c = Color { r: bytes[pos + 4], g: bytes[pos + 5], b: bytes[pos + 6] };
        Some((Instruction::SetColor(c), pos + 7))
    } else if tag == 4 {
        if len - pos < 8 {
            return None;
        }
        let t = read_u32(bytes, pos + 4);
        assert(b.skip(4) =~= bytes@.skip(pos + 4));
        if t == 0 {
            Some((Instruction::SetTool(Tool::Eraser), pos + 8))
        } else if t == 1 {
            Some((Instruction::SetTool(Tool::Pencil), pos + 8))
        } else {
            None
        }
    } else if tag == 5 {
        Some((Instruction::Clear, pos + 4))
    } else if tag == 6 {
        Some((Instruction::Redo, pos + 4))
    } else if tag == 7 {
        Some((Instruction::Undo, pos + 4))
    } else if tag == 8 {
        Some((Instruction::Reset, pos + 4))
    } else {
        None
    }
}

/// Decodes the frame at `pos`: the frame and where the next one starts.
fn decode_frame(bytes: &[u8], pos: usize) -> (r: Option<(Frame, usize)>)
    requires
        pos <= bytes@.len(),
    ensures
        match r {
            Some((frame, next)) => pos < next <= bytes@.len() && parse_frame(
                bytes@.skip(pos as int),
            ) == Some((frame@, (next - pos) as nat)),
            None => parse_frame(bytes@.skip(pos as int)) is None,
        },
{
    let len = bytes.len();
    let ghost b = bytes@.skip(pos as int);
    if len - pos < 8 {
        return None;
    }
    let count: u64 = read_u64(bytes, pos);
    let start: usize = pos + 8;
    let ghost body = b.skip(8);
    assert(body =~= bytes@.skip(start as int));
    let mut items: Vec<Instruction> = Vec::new();
    let mut at: usize = start;
    let mut i: u64 = 0;
    while i < count
        invariant
            0 <= i <= count,
            start <= at <= bytes@.len(),
            start == pos + 8,
            b == bytes@.skip(pos as int),
            body == b.skip(8),
            count == u64_of(b),
            body == bytes@.skip(start as int),
            parse_instructions(body, i as nat) == Some((items@, (at - start) as nat)),
        decreases count - i,
    {
        assert(body.skip(at - start) =~= bytes@.skip(at as int));
        match decode_instruction(bytes, at) {
            Some((ins, next)) => {
                items.push(ins);
                at = next;
            },
            None => {
                proof {
                    assert(parse_instructions(body, i as nat) == Some(
                        (items@, (at - start) as nat),
                    ));
                    assert(parse_instruction(body.skip(at - start)) is None);
                    assert(parse_instructions(body, (i + 1) as nat) is None);
                    lemma_instructions_fail_on(body, (i + 1) as nat, count as nat);
                }
                return None;
            },
        }
        i = i + 1;
    }
    Some((Frame { instructions: items }, at))
}

/// Decodes the chunk that `bytes` starts with. Bytes after the chunk are
/// ignored. Returns `None` exactly where `bytes` does not start with the
/// bytes of a chunk.
pub fn decode_chunk(bytes: &[u8]) -> (r: Option<Vec<Frame>>)
    ensures
        match r {
            Some(chunk) => parse_chunk(bytes@) matches Some((frames, _)) && frames == frames_of(
                chunk@,
            ),
            None => parse_chunk(bytes@) is None,
        },
{
    let len = bytes.len();
    if len < 8 {
        return None;
    }
    assert(bytes@.skip(0) =~= bytes@);
    let count: u64 = read_u64(bytes, 0);
    let ghost body = bytes@.skip(8);
    let mut chunk: Vec<Frame> = Vec::new();
    let mut at: usize = 8;
    let mut i: u64 = 0;
    assert(frames_of(chunk@) =~= Frames::empty());
    while i < count
        invariant
            0 <= i <= count,
            8 <= at <= bytes@.len(),
            body == bytes@.skip(8),
            count == u64_of(bytes@),
            parse_frames(body, i as nat) == Some((frames_of(chunk@), (at - 8) as nat)),
        decreases count - i,
    {
        assert(body.skip(at - 8) =~= bytes@.skip(at as int));
        let ghost before = frames_of(chunk@);
        match decode_frame(bytes, at) {
            Some((frame, next)) => {
                chunk.push(frame);
                at = next;
                assert(frames_of(chunk@) =~= before.push(frame@));
            },
            None => {
                proof {
                    assert(parse_frames(body, i as nat) == Some(
                        (frames_of(chunk@), (at - 8) as nat),
                    ));
                    assert(parse_frame(body.skip(at - 8)) is None);
                    assert(parse_frames(body, (i + 1) as nat) is None);
                    lemma_frames_fail_on(body, (i + 1) as nat, count as nat);
                }
                return None;
            },
        }
        i = i + 1;
    }
    Some(chunk)
}

/// A number that is `r` plus 256 times `q`, with `r` a byte, has `r` for
/// its remainder by 256 and `q` for its quotient.
proof fn lemma_low_byte(x: int, q: int, r: int)
    requires
        0 <= r < 0x100,
        x == r + 0x100 * q,
    ensures
        x % 0x100 == r,
        x / 0x100 == q,
{
    lemma_fundamental_div_mod_converse(x, 0x100, q, r);
}

/// Four bytes hold the number they were made from, and are made from the
/// number they hold.
pub proof fn lemma_u32_round_trip(v: int, b: Seq<u8>)
    ensures
        0 <= v < 0x1_0000_0000 ==> u32_of(u32_le(v) + b) == v,
        u32_le(v).len() == 4,
        b.len() >= 4 ==> u32_le(u32_of(b)) == b.take(4) && 0 <= u32_of(b) < 0x1_0000_0000,
{
    if 0 <= v < 0x1_0000_0000 {
        let q0 = v / 0x100;
        let q1 = q0 / 0x100;
        let q2 = q1 / 0x100;
        lemma_fundamental_div_mod(v, 0x100);
        lemma_fundamental_div_mod(q0, 0x100);
        lemma_fundamental_div_mod(q1, 0x100);
        assert(0 <= q2 < 0x100);
        lemma_low_byte(q2, 0, q2);
        let e = u32_le(v) + b;
        assert(e[0] == v % 0x100);
        assert(e[1] == q0 % 0x100);
        assert(e[2] == q1 % 0x100);
        assert(e[3] == q2);
    }
    if b.len() >= 4 {
        let b0 = b[0] as int;
        let b1 = b[1] as int;
        let b2 = b[2] as int;
        let b3 = b[3] as int;
        let v2 = b2 + 0x100 * b3;
        let v1 = b1 + 0x100 * v2;
        let v0 = b0 + 0x100 * v1;
        assert(v0 == u32_of(b));
        lemma_low_byte(v0, v1, b0);
        lemma_low_byte(v1, v2, b1);
        lemma_low_byte(v2, b3, b2);
        lemma_low_byte(b3, 0, b3);
        let e = u32_le(v0);
        assert(e[0] == b[0]);
        assert(e[1] == b[1]);
        assert(e[2] == b[2]);
        assert(e[3] == b[3]);
        assert(e =~= b.take(4));
    }
}

/// Eight bytes hold the number they were made from, and are made from the
/// number they hold.
pub proof fn lemma_u64_round_trip(v: int, b: Seq<u8>)
    ensures
        0 <= v < 0x1_0000_0000_0000_0000 ==> u64_of(u64_le(v) + b) == v,
        u64_le(v).len() == 8,
        b.len() >= 8 ==> u64_le(u64_of(b)) == b.take(8) && 0 <= u64_of(b)
            < 0x1_0000_0000_0000_0000,
{
    if 0 <= v < 0x1_0000_0000_0000_0000 {
        let lo = v % 0x1_0000_0000;
        let hi = v / 0x1_0000_0000;
        lemma_fundamental_div_mod(v, 0x1_0000_0000);
        let e = u64_le(v) + b;
        assert(e =~= u32_le(lo) + (u32_le(hi) + b));
        lemma_u32_round_trip(lo, u32_le(hi) + b);
        assert(e.skip(4) =~= u32_le(hi) + b);
        lemma_u32_round_trip(hi, b);
    }
    if b.len() >= 8 {
        lemma_u32_round_trip(0, b);
        lemma_u32_round_trip(0, b.skip(4));
        let lo = u32_of(b);
        let hi = u32_of(b.skip(4));
        lemma_fundamental_div_mod_converse(u64_of(b), 0x1_0000_0000, hi, lo);
        assert(b.skip(4).take(4) =~= b.subrange(4, 8));
        assert(b.take(4) =~= b.subrange(0, 4));
        assert(u64_le(u64_of(b)) =~= b.subrange(0, 4) + b.subrange(4, 8));
        assert(u64_le(u64_of(b)) =~= b.take(8));
    }
}

/// An instruction parses back from its bytes, whatever follows them.
pub proof fn lemma_instruction_round_trip(ins: Instruction, rest: Seq<u8>)
    ensures
        parse_instruction(instruction_bytes(ins) + rest) == Some(
            (ins, instruction_bytes(ins).len()),
        ),
        4 <= instruction_bytes(ins).len() <= 8,
{
    let payload = instruction_payload(ins);
    let b = instruction_bytes(ins) + rest;
    assert(b =~= u32_le(instruction_tag(ins)) + (payload + rest));
    lemma_u32_round_trip(instruction_tag(ins), payload + rest);
    match ins {
        Instruction::PointerDown(c) => {
            assert(b[4] == c.0 && b[5] == c.1);
        },
        Instruction::PointerMove(c) => {
            assert(b[4] == c.0 && b[5] == c.1);
        },
        Instruction::PointerUp(c) => {
            assert(b[4] == c.0 && b[5] == c.1);
        },
        Instruction::SetColor(c) => {
            assert(b[4] == c.r && b[5] == c.g && b[6] == c.b);
        },
        Instruction::SetTool(t) => {
            assert(b.skip(4) =~= u32_le(tool_tag(t)) + rest);
            lemma_u32_round_trip(tool_tag(t), rest);
        },
        _ => {},
    }
}

/// What parses as an instruction is the bytes of that instruction.
pub proof fn lemma_instruction_canonical(b: Seq<u8>)
    ensures
        parse_instruction(b) matches Some((ins, n)) ==> n <= b.len() && b.take(n as int)
            == instruction_bytes(ins),
{
    if let Some((ins, n)) = parse_instruction(b) {
        lemma_u32_round_trip(0, b);
        assert(b.take(4) == u32_le(instruction_tag(ins)));
        match ins {
            Instruction::SetTool(t) => {
                lemma_u32_round_trip(0, b.skip(4));
                assert(b.skip(4).take(4) == u32_le(tool_tag(t)));
                assert(b.take(8) =~= b.take(4) + b.skip(4).take(4));
            },
            _ => {
                assert(b.take(n as int) =~= b.take(4) + instruction_payload(ins));
            },
        }
    }
}

/// A sequence of instructions parses back from its bytes, whatever follows
/// them.
pub proof fn lemma_instructions_round_trip(s: Seq<Instruction>, rest: Seq<u8>)
    ensures
        parse_instructions(instructions_bytes(s) + rest, s.len()) == Some(
            (s, instructions_bytes(s).len()),
        ),
    decreases s.len(),
{
    if s.len() > 0 {
        let head = instructions_bytes(s.drop_last());
        let tail = instruction_bytes(s.last());
        let b = instructions_bytes(s) + rest;
        assert(b =~= head + (tail + rest));
        lemma_instructions_round_trip(s.drop_last(), tail + rest);
        assert(b.skip(head.len() as int) =~= tail + rest);
        lemma_instruction_round_trip(s.last(), rest);
        assert(s.drop_last().push(s.last()) =~= s);
    }
}

/// What parses as `count` instructions is that many instructions, and the
/// bytes are theirs.
pub proof fn lemma_instructions_canonical(b: Seq<u8>, count: nat)
    ensures
        parse_instructions(b, count) matches Some((s, n)) ==> s.len() == count && n <= b.len()
            && b.take(n as int) == instructions_bytes(s),
    decreases count,
{
    if count == 0 {
        assert(b.take(0) =~= Seq::<u8>::empty());
    } else if let Some((s, n)) = parse_instructions(b, count) {
        lemma_instructions_canonical(b, (count - 1) as nat);
        let (items, n0) = parse_instructions(b, (count - 1) as nat).unwrap();
        lemma_instruction_canonical(b.skip(n0 as int));
        let (ins, m) = parse_instruction(b.skip(n0 as int)).unwrap();
        assert(s.drop_last() =~= items);
        assert(b.take(n as int) =~= b.take(n0 as int) + b.skip(n0 as int).take(m as int));
    }
}

/// A frame parses back from its bytes, whatever follows them.
pub proof fn lemma_frame_round_trip(frame: Seq<Instruction>, rest: Seq<u8>)
    requires
        frame.len() < 0x1_0000_0000_0000_0000,
    ensures
        parse_frame(frame_bytes(frame) + rest) == Some((frame, frame_bytes(frame).len())),
        frame_bytes(frame).len() >= 8,
{
    let body = instructions_bytes(frame);
    let b = frame_bytes(frame) + rest;
    assert(b =~= u64_le(frame.len() as int) + (body + rest));
    lemma_u64_round_trip(frame.len() as int, body + rest);
    assert(b.skip(8) =~= body + rest);
    lemma_instructions_round_trip(frame, rest);
}

/// What parses as a frame is the bytes of that frame.
pub proof fn lemma_frame_canonical(b: Seq<u8>)
    ensures
        parse_frame(b) matches Some((frame, n)) ==> n <= b.len() && b.take(n as int)
            == frame_bytes(frame),
{
    if let Some((frame, n)) = parse_frame(b) {
        lemma_u64_round_trip(0, b);
        lemma_instructions_canonical(b.skip(8), u64_of(b) as nat);
        assert(b.take(n as int) =~= b.take(8) + b.skip(8).take(n - 8));
    }
}

/// A sequence of frames parses back from its bytes, whatever follows them.
pub proof fn lemma_frames_round_trip(frames: Frames, rest: Seq<u8>)
    requires
        forall|i: int| 0 <= i < frames.len() ==> (#[trigger] frames[i]).len() < 0x1_0000_0000_0000_0000,
    ensures
        parse_frames(frames_bytes(frames) + rest, frames.len()) == Some(
            (frames, frames_bytes(frames).len()),
        ),
    decreases frames.len(),
{
    if frames.len() > 0 {
        let head = frames_bytes(frames.drop_last());
        let tail = frame_bytes(frames.last());
        let b = frames_bytes(frames) + rest;
        assert(b =~= head + (tail + rest));
        lemma_frames_round_trip(frames.drop_last(), tail + rest);
        assert(b.skip(head.len() as int) =~= tail + rest);
        lemma_frame_round_trip(frames.last(), rest);
        assert(frames.drop_last().push(frames.last()) =~= frames);
    }
}

/// What parses as `count` frames is that many frames, and the bytes are
/// theirs.
pub proof fn lemma_frames_canonical(b: Seq<u8>, count: nat)
    ensures
        parse_frames(b, count) matches Some((frames, n)) ==> frames.len() == count && n
            <= b.len() && b.take(n as int) == frames_bytes(frames),
    decreases count,
{
    if count == 0 {
        assert(b.take(0) =~= Seq::<u8>::empty());
    } else if let Some((frames, n)) = parse_frames(b, count) {
        lemma_frames_canonical(b, (count - 1) as nat);
        let (items, n0) = parse_frames(b, (count - 1) as nat).unwrap();
        lemma_frame_canonical(b.skip(n0 as int));
        let (frame, m) = parse_frame(b.skip(n0 as int)).unwrap();
        assert(frames.drop_last() =~= items);
        assert(b.take(n as int) =~= b.take(n0 as int) + b.skip(n0 as int).take(m as int));
    }
}

/// Byte round trip: the bytes of a chunk, with anything after them, decode
/// to that chunk: the same frames in the same order, each with the same
/// instructions in the same order.
pub proof fn law_chunk_round_trip(frames: Frames, rest: Seq<u8>)
    requires
        frames.len() < 0x1_0000_0000_0000_0000,
        forall|i: int| 0 <= i < frames.len() ==> (#[trigger] frames[i]).len() < 0x1_0000_0000_0000_0000,
    ensures
        parse_chunk(chunk_bytes(frames) + rest) == Some((frames, chunk_bytes(frames).len())),
{
    let body = frames_bytes(frames);
    let b = chunk_bytes(frames) + rest;
    assert(b =~= u64_le(frames.len() as int) + (body + rest));
    lemma_u64_round_trip(frames.len() as int, body + rest);
    assert(b.skip(8) =~= body + rest);
    lemma_frames_round_trip(frames, rest);
}

/// Only the bytes of a chunk decode to it: where bytes decode, the bytes
/// that were read are the bytes of the chunk that came out.
pub proof fn law_decoded_is_encoded(b: Seq<u8>)
    ensures
        parse_chunk(b) matches Some((frames, n)) ==> n <= b.len() && b.take(n as int)
            == chunk_bytes(frames),
{
    if let Some((frames, n)) = parse_chunk(b) {
        lemma_u64_round_trip(0, b);
        lemma_frames_canonical(b.skip(8), u64_of(b) as nat);
        assert(b.take(n as int) =~= b.take(8) + b.skip(8).take(n - 8));
    }
}

} // verus!
