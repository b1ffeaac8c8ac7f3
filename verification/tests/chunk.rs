use drawpad::chunk::{ChunkLoader, ChunkUnloader};
use drawpad::frame::Frame;
use drawpad::operation::Instruction;

fn frame_of(instructions: &[Instruction]) -> Frame {
    let mut f = Frame::new();
    for i in instructions {
        f.push(*i);
    }
    f
}

fn tap(n: u8) -> Frame {
    frame_of(&[Instruction::PointerDown((n, n)), Instruction::PointerUp((n, n))])
}

#[test]
fn new_frame_is_empty() {
    let f = Frame::new();
    assert!(f.instructions.is_empty());
}

#[test]
fn frame_push_keeps_the_order() {
    let mut f = Frame::new();
    f.push(Instruction::Undo);
    f.push(Instruction::Redo);
    f.push(Instruction::PointerDown((1, 2)));
    assert_eq!(
        f.instructions,
        vec![Instruction::Undo, Instruction::Redo, Instruction::PointerDown((1, 2))]
    );
}

#[test]
fn fifteen_frames_make_one_chunk_in_order() {
    let mut loader: ChunkLoader<15> = ChunkLoader::new();
    let mut chunks = Vec::new();
    for n in 0..15u8 {
        if let Some(c) = loader.load(tap(n)) {
            chunks.push(c);
        }
    }
    assert_eq!(chunks.len(), 1);
    assert_eq!(chunks[0].len(), 15);
    for n in 0..15u8 {
        assert_eq!(chunks[0][n as usize], tap(n));
    }
}

#[test]
fn loader_hands_back_nothing_before_the_chunk_is_full() {
    let mut loader: ChunkLoader<15> = ChunkLoader::new();
    for n in 0..14u8 {
        assert!(loader.load(tap(n)).is_none());
    }
    assert!(loader.load(tap(14)).is_some());
    assert!(loader.load(tap(15)).is_none());
}

#[test]
fn loader_keeps_batching_across_chunks() {
    let mut loader: ChunkLoader<3> = ChunkLoader::new();
    let mut out = Vec::new();
    let mut chunks = 0;
    for n in 0..11u8 {
        if let Some(c) = loader.load(tap(n)) {
            assert_eq!(c.len(), 3);
            chunks += 1;
            out.extend(c);
        }
    }
    assert_eq!(chunks, 3);
    assert_eq!(out.len(), 9);
    for n in 0..9u8 {
        assert_eq!(out[n as usize], tap(n));
    }
}

#[test]
fn loader_of_size_one_hands_back_every_frame() {
    let mut loader: ChunkLoader<1> = ChunkLoader::new();
    for n in 0..4u8 {
        let c = loader.load(tap(n)).expect("a chunk for every frame");
        assert_eq!(c, vec![tap(n)]);
    }
}

#[test]
fn loader_of_size_two() {
    let mut loader: ChunkLoader<2> = ChunkLoader::new();
    assert!(loader.load(tap(0)).is_none());
    assert_eq!(loader.load(tap(1)), Some(vec![tap(0), tap(1)]));
    assert!(loader.load(tap(2)).is_none());
    assert_eq!(loader.load(tap(3)), Some(vec![tap(2), tap(3)]));
}

#[test]
fn fresh_unloader_hands_out_empty_frames() {
    let mut u = ChunkUnloader::new();
    assert_eq!(u.unload(None), Frame::new());
    assert_eq!(u.unload(None), Frame::new());
}

#[test]
fn unloader_hands_out_one_frame_per_call() {
    let mut u = ChunkUnloader::new();
    let flushed = u.unload(Some(vec![tap(1), tap(2), tap(3)]));
    assert_eq!(flushed, Frame::new());
    assert_eq!(u.unload(None), tap(1));
    assert_eq!(u.unload(None), tap(2));
    assert_eq!(u.unload(None), tap(3));
    assert_eq!(u.unload(None), Frame::new());
    assert_eq!(u.unload(None), Frame::new());
}

#[test]
fn new_chunk_flushes_the_one_frame_left() {
    let mut u = ChunkUnloader::new();
    u.unload(Some(vec![tap(1), tap(2), tap(3)]));
    u.unload(None);
    u.unload(None);
    let carried = u.unload(Some(vec![tap(7), tap(8)]));
    assert_eq!(carried, tap(3));
    assert_eq!(u.unload(None), tap(7));
    assert_eq!(u.unload(None), tap(8));
    assert_eq!(u.unload(None), Frame::new());
}

#[test]
fn new_chunk_flushes_all_that_is_left_as_one_frame() {
    let mut u = ChunkUnloader::new();
    u.unload(Some(vec![tap(1), tap(2), frame_of(&[Instruction::Undo]), Frame::new(), tap(5)]));
    assert_eq!(u.unload(None), tap(1));
    let carried = u.unload(Some(vec![tap(9)]));
    assert_eq!(
        carried,
        frame_of(&[
            Instruction::PointerDown((2, 2)),
            Instruction::PointerUp((2, 2)),
            Instruction::Undo,
            Instruction::PointerDown((5, 5)),
            Instruction::PointerUp((5, 5)),
        ])
    );
    assert_eq!(u.unload(None), tap(9));
}

#[test]
fn new_chunk_after_exhaustion_flushes_nothing() {
    let mut u = ChunkUnloader::new();
    u.unload(Some(vec![tap(1)]));
    assert_eq!(u.unload(None), tap(1));
    assert_eq!(u.unload(None), Frame::new());
    assert_eq!(u.unload(Some(vec![tap(2)])), Frame::new());
    assert_eq!(u.unload(None), tap(2));
}

#[test]
fn empty_chunk_replaces_what_was_pending() {
    let mut u = ChunkUnloader::new();
    u.unload(Some(vec![tap(1), tap(2)]));
    let carried = u.unload(Some(Vec::new()));
    assert_eq!(
        carried,
        frame_of(&[
            Instruction::PointerDown((1, 1)),
            Instruction::PointerUp((1, 1)),
            Instruction::PointerDown((2, 2)),
            Instruction::PointerUp((2, 2)),
        ])
    );
    assert_eq!(u.unload(None), Frame::new());
}

#[test]
fn no_instruction_is_lost_or_doubled_between_loader_and_unloader() {
    let mut loader: ChunkLoader<4> = ChunkLoader::new();
    let mut u = ChunkUnloader::new();
    let mut sent = Vec::new();
    let mut received = Vec::new();
    for n in 0..40u8 {
        let f = tap(n);
        sent.extend(f.instructions.iter().copied());
        let arrived = loader.load(f);
        // The watcher ticks at its own pace: here slower than the drawer.
        if n % 3 == 0 || arrived.is_some() {
            received.extend(u.unload(arrived).instructions);
        }
    }
    for _ in 0..10 {
        received.extend(u.unload(None).instructions);
    }
    assert_eq!(received, sent);
}
