use drawpad::canvas::{Color, Data};
use drawpad::pad::{Drawpad, DrawpadMsg, DrawpadReq, PointerAction, StreamMode};
use drawpad::frame::Frame;
use drawpad::operation::{Instruction, Tool};
use drawpad::protocol::{PlayerRequest, PlayerResponse};
use drawpad::wire::{decode_chunk, encode_chunk};
use std::rc::Rc;

const BLACK: Color = Color { r: 0, g: 0, b: 0 };
const WHITE: Color = Color { r: 255, g: 255, b: 255 };
const RED: Color = Color { r: 255, g: 0, b: 0 };

fn frame_of(instructions: &[Instruction]) -> Frame {
    let mut f = Frame::new();
    for i in instructions {
        f.push(*i);
    }
    f
}

fn count(data: &Data, color: Color) -> usize {
    let mut n = 0;
    for x in 0..128 {
        for y in 0..128 {
            if data[x][y] == color {
                n += 1;
            }
        }
    }
    n
}

fn pointer(pad: &mut Drawpad, coor: (i32, i32), action: PointerAction, buttons: u16) {
    let effect = pad.update(DrawpadMsg::Pointer { coor, action, buttons }, Some((100, 200)));
    assert!(effect.send.is_none());
    assert!(!effect.repaint);
}

fn server(pad: &mut Drawpad, resp: PlayerResponse) {
    let effect = pad.update(DrawpadMsg::Ws(Rc::new(resp)), None);
    assert!(effect.send.is_none());
    assert!(!effect.repaint);
}

fn tick(pad: &mut Drawpad) -> Option<Vec<u8>> {
    let effect = pad.update(DrawpadMsg::Frame, None);
    assert!(effect.repaint);
    match effect.send {
        Some(PlayerRequest::Chunk { bin }) => Some(bin),
        Some(other) => panic!("unexpected request {:?}", other),
        None => None,
    }
}

#[test]
fn fresh_pad_is_offline_with_a_pencil() {
    let mut pad = Drawpad::create();
    assert_eq!(pad.stream_mode(), StreamMode::Offline);
    assert_eq!(pad.tool(), Tool::Pencil);
    assert_eq!(count(pad.figure().get_ref(), WHITE), 128 * 128);
    assert_eq!(pad.take_frame(), Frame::new());
}

#[test]
fn screen_positions_map_to_cells_of_four_pixels() {
    let mut pad = Drawpad::create();
    pointer(&mut pad, (100, 200), PointerAction::Down, 1);
    pointer(&mut pad, (103, 203), PointerAction::Move, 1);
    pointer(&mut pad, (104, 207), PointerAction::Move, 1);
    pointer(&mut pad, (100 + 4 * 127, 200 + 4 * 127 + 3), PointerAction::Move, 1);
    pointer(&mut pad, (100 + 50, 200 + 61), PointerAction::Up, 1);
    assert_eq!(
        pad.take_frame(),
        frame_of(&[
            Instruction::SetColor(BLACK),
            Instruction::SetTool(Tool::Pencil),
            Instruction::PointerDown((0, 0)),
            Instruction::PointerMove((0, 0)),
            Instruction::PointerMove((1, 1)),
            Instruction::PointerMove((127, 127)),
            Instruction::PointerUp((12, 15)),
        ])
    );
}

#[test]
fn screen_positions_outside_the_grid_are_clamped() {
    let mut pad = Drawpad::create();
    pointer(&mut pad, (0, 0), PointerAction::Down, 1);
    pointer(&mut pad, (99, 10_000), PointerAction::Move, 1);
    pointer(&mut pad, (100 + 512, 200 + 511), PointerAction::Move, 1);
    pointer(&mut pad, (i32::MAX, i32::MIN), PointerAction::Move, 1);
    pointer(&mut pad, (i32::MIN, i32::MAX), PointerAction::Up, 1);
    assert_eq!(
        pad.take_frame(),
        frame_of(&[
            Instruction::SetColor(BLACK),
            Instruction::SetTool(Tool::Pencil),
            Instruction::PointerDown((0, 0)),
            Instruction::PointerMove((0, 127)),
            Instruction::PointerMove((127, 127)),
            Instruction::PointerMove((127, 0)),
            Instruction::PointerUp((0, 127)),
        ])
    );
}

#[test]
fn pointer_events_without_a_shown_grid_are_dropped() {
    let mut pad = Drawpad::create();
    let effect = pad.update(
        DrawpadMsg::Pointer { coor: (120, 220), action: PointerAction::Down, buttons: 1 },
        None,
    );
    assert!(effect.send.is_none() && !effect.repaint);
    assert_eq!(pad.take_frame(), Frame::new());
}

#[test]
fn secondary_button_draws_with_the_other_tool() {
    let mut pad = Drawpad::create();
    pointer(&mut pad, (104, 204), PointerAction::Down, 2);
    pointer(&mut pad, (108, 204), PointerAction::Up, 0);
    assert_eq!(
        pad.take_frame(),
        frame_of(&[
            Instruction::SetTool(Tool::Eraser),
            Instruction::PointerDown((1, 1)),
            Instruction::PointerUp((2, 1)),
        ])
    );
    pad.update(DrawpadMsg::HotKeyE, None);
    assert_eq!(pad.tool(), Tool::Eraser);
    pointer(&mut pad, (104, 204), PointerAction::Down, 1);
    pointer(&mut pad, (108, 204), PointerAction::Up, 0);
    pointer(&mut pad, (104, 204), PointerAction::Down, 2);
    pointer(&mut pad, (108, 204), PointerAction::Up, 0);
    assert_eq!(
        pad.take_frame(),
        frame_of(&[
            Instruction::SetTool(Tool::Eraser),
            Instruction::PointerDown((1, 1)),
            Instruction::PointerUp((2, 1)),
            Instruction::SetColor(BLACK),
            Instruction::SetTool(Tool::Pencil),
            Instruction::PointerDown((1, 1)),
            Instruction::PointerUp((2, 1)),
        ])
    );
    pad.update(DrawpadMsg::HotKeyE, None);
    assert_eq!(pad.tool(), Tool::Pencil);
}

#[test]
fn other_button_masks_draw_nothing() {
    let mut pad = Drawpad::create();
    pointer(&mut pad, (104, 204), PointerAction::Down, 3);
    pointer(&mut pad, (108, 204), PointerAction::Move, 3);
    pointer(&mut pad, (108, 204), PointerAction::Move, 0);
    pointer(&mut pad, (108, 204), PointerAction::Move, 4);
    pointer(&mut pad, (108, 204), PointerAction::Up, 0);
    assert_eq!(pad.take_frame(), Frame::new());
    // The mask noted at pointer-down decides on pointer-up, not the mask
    // that comes with it.
    pointer(&mut pad, (104, 204), PointerAction::Down, 0);
    pointer(&mut pad, (108, 204), PointerAction::Up, 1);
    assert_eq!(pad.take_frame(), Frame::new());
    pointer(&mut pad, (104, 204), PointerAction::Down, 1);
    pointer(&mut pad, (108, 204), PointerAction::Up, 0);
    pointer(&mut pad, (108, 204), PointerAction::Up, 0);
    assert_eq!(
        pad.take_frame(),
        frame_of(&[
            Instruction::SetColor(BLACK),
            Instruction::SetTool(Tool::Pencil),
            Instruction::PointerDown((1, 1)),
            Instruction::PointerUp((2, 1)),
        ])
    );
}

#[test]
fn keys_add_instructions() {
    let mut pad = Drawpad::create();
    for msg in [DrawpadMsg::CtrlZ, DrawpadMsg::CtrlY, DrawpadMsg::CtrlX] {
        let effect = pad.update(msg, None);
        assert!(effect.send.is_none() && !effect.repaint);
    }
    assert_eq!(
        pad.take_frame(),
        frame_of(&[Instruction::Undo, Instruction::Redo, Instruction::Clear])
    );
}

#[test]
fn requests_set_colour_tool_and_mode() {
    let mut pad = Drawpad::create();
    pad.update(DrawpadMsg::Req(DrawpadReq::SetColor(RED)), None);
    pad.update(DrawpadMsg::Req(DrawpadReq::SetTool(Tool::Eraser)), None);
    assert_eq!(pad.tool(), Tool::Eraser);
    pad.update(DrawpadMsg::Req(DrawpadReq::SetTool(Tool::Pencil)), None);
    pad.update(DrawpadMsg::Req(DrawpadReq::SetStreamMode(StreamMode::Push)), None);
    assert_eq!(pad.stream_mode(), StreamMode::Push);
    pad.update(DrawpadMsg::Req(DrawpadReq::Clear), None);
    pointer(&mut pad, (104, 204), PointerAction::Down, 1);
    assert_eq!(
        pad.take_frame(),
        frame_of(&[
            Instruction::Clear,
            Instruction::SetColor(RED),
            Instruction::SetTool(Tool::Pencil),
            Instruction::PointerDown((1, 1)),
        ])
    );
}

#[test]
fn offline_tick_renders_and_sends_nothing() {
    let mut pad = Drawpad::create();
    pointer(&mut pad, (100, 200), PointerAction::Down, 1);
    pointer(&mut pad, (100, 220), PointerAction::Up, 0);
    assert_eq!(count(pad.figure().get_ref(), BLACK), 0);
    for _ in 0..40 {
        assert_eq!(tick(&mut pad), None);
    }
    assert_eq!(count(pad.figure().get_ref(), BLACK), 6);
    assert_eq!(pad.take_frame(), Frame::new());
}

#[test]
fn pushing_sends_one_chunk_every_fifteen_ticks() {
    let mut pad = Drawpad::create();
    pad.update(DrawpadMsg::Req(DrawpadReq::SetStreamMode(StreamMode::Push)), None);
    let mut expected = Vec::new();
    let mut sent = Vec::new();
    for n in 0..15u8 {
        pad.push_instruction(Instruction::PointerDown((n, n)));
        pad.push_instruction(Instruction::PointerUp((n, n)));
        expected.push(frame_of(&[Instruction::PointerDown((n, n)), Instruction::PointerUp((n, n))]));
        if let Some(bin) = tick(&mut pad) {
            assert_eq!(n, 14);
            sent.push(bin);
        }
    }
    assert_eq!(sent.len(), 1);
    assert_eq!(decode_chunk(&sent[0]), Some(expected));
    for n in 0..14u8 {
        assert_eq!(tick(&mut pad), None, "tick {}", n);
    }
    let second = tick(&mut pad).expect("a second chunk");
    let empty: Vec<Frame> = (0..15).map(|_| Frame::new()).collect();
    assert_eq!(decode_chunk(&second), Some(empty));
    // What was sent is rendered locally as well.
    assert_eq!(count(pad.figure().get_ref(), BLACK), 15);
}

#[test]
fn receiving_renders_what_arrives_and_drops_its_own_frame() {
    let mut pad = Drawpad::create();
    pad.update(DrawpadMsg::Req(DrawpadReq::SetStreamMode(StreamMode::Receive)), None);
    let chunk = vec![
        frame_of(&[Instruction::PointerDown((1, 1)), Instruction::PointerUp((1, 3))]),
        frame_of(&[Instruction::SetColor(RED)]),
        frame_of(&[Instruction::PointerDown((5, 1)), Instruction::PointerUp((5, 3))]),
    ];
    server(&mut pad, PlayerResponse::Chunk { bin: encode_chunk(&chunk) });
    pointer(&mut pad, (100, 200), PointerAction::Down, 1);
    // The tick that takes the chunk renders what was still pending: nothing.
    assert_eq!(tick(&mut pad), None);
    assert_eq!(count(pad.figure().get_ref(), WHITE), 128 * 128);
    assert_eq!(tick(&mut pad), None);
    assert_eq!(count(pad.figure().get_ref(), BLACK), 3);
    assert_eq!(tick(&mut pad), None);
    assert_eq!(tick(&mut pad), None);
    assert_eq!(count(pad.figure().get_ref(), RED), 3);
    assert_eq!(tick(&mut pad), None);
    assert_eq!(count(pad.figure().get_ref(), BLACK), 3);
    assert_eq!(count(pad.figure().get_ref(), RED), 3);
    // The pad's own frame was not rendered, and it is gone.
    assert_eq!(pad.figure().get_ref()[0][0], WHITE);
    assert_eq!(pad.take_frame(), Frame::new());
    pad.update(DrawpadMsg::Req(DrawpadReq::SetStreamMode(StreamMode::Offline)), None);
    tick(&mut pad);
    assert_eq!(pad.figure().get_ref()[0][0], WHITE);
}

#[test]
fn a_new_chunk_flushes_the_frames_still_pending() {
    let mut pad = Drawpad::create();
    pad.update(DrawpadMsg::Req(DrawpadReq::SetStreamMode(StreamMode::Receive)), None);
    let first = vec![
        frame_of(&[Instruction::PointerDown((1, 1)), Instruction::PointerUp((1, 1))]),
        frame_of(&[Instruction::PointerDown((2, 2)), Instruction::PointerUp((2, 2))]),
        frame_of(&[Instruction::PointerDown((3, 3)), Instruction::PointerUp((3, 3))]),
    ];
    let second = vec![frame_of(&[Instruction::PointerDown((4, 4)), Instruction::PointerUp((4, 4))])];
    server(&mut pad, PlayerResponse::Chunk { bin: encode_chunk(&first) });
    tick(&mut pad);
    tick(&mut pad);
    assert_eq!(count(pad.figure().get_ref(), BLACK), 1);
    server(&mut pad, PlayerResponse::Chunk { bin: encode_chunk(&second) });
    tick(&mut pad);
    assert_eq!(count(pad.figure().get_ref(), BLACK), 3);
    tick(&mut pad);
    assert_eq!(count(pad.figure().get_ref(), BLACK), 4);
    tick(&mut pad);
    assert_eq!(count(pad.figure().get_ref(), BLACK), 4);
}

#[test]
fn chunks_that_arrive_between_two_ticks_are_taken_together() {
    let mut pad = Drawpad::create();
    pad.update(DrawpadMsg::Req(DrawpadReq::SetStreamMode(StreamMode::Receive)), None);
    for n in 1..=3u8 {
        let chunk = vec![frame_of(&[Instruction::PointerDown((n, n)), Instruction::PointerUp((n, n))])];
        server(&mut pad, PlayerResponse::Chunk { bin: encode_chunk(&chunk) });
    }
    tick(&mut pad);
    assert_eq!(count(pad.figure().get_ref(), BLACK), 0);
    tick(&mut pad);
    tick(&mut pad);
    assert_eq!(count(pad.figure().get_ref(), BLACK), 2);
    tick(&mut pad);
    assert_eq!(count(pad.figure().get_ref(), BLACK), 3);
}

#[test]
fn chunks_count_only_while_receiving() {
    let chunk = vec![frame_of(&[Instruction::PointerDown((1, 1)), Instruction::PointerUp((1, 1))])];
    for mode in [StreamMode::Offline, StreamMode::Push] {
        let mut pad = Drawpad::create();
        pad.update(DrawpadMsg::Req(DrawpadReq::SetStreamMode(mode)), None);
        server(&mut pad, PlayerResponse::Chunk { bin: encode_chunk(&chunk) });
        pad.update(DrawpadMsg::Req(DrawpadReq::SetStreamMode(StreamMode::Receive)), None);
        for _ in 0..3 {
            tick(&mut pad);
        }
        assert_eq!(count(pad.figure().get_ref(), BLACK), 0);
    }
}

#[test]
fn bytes_that_do_not_decode_are_dropped() {
    let mut pad = Drawpad::create();
    pad.update(DrawpadMsg::Req(DrawpadReq::SetStreamMode(StreamMode::Receive)), None);
    let good = vec![frame_of(&[Instruction::PointerDown((1, 1)), Instruction::PointerUp((1, 1))])];
    let mut cut = encode_chunk(&good);
    cut.pop();
    server(&mut pad, PlayerResponse::Chunk { bin: cut });
    server(&mut pad, PlayerResponse::Chunk { bin: vec![7, 7, 7] });
    server(&mut pad, PlayerResponse::Chunk { bin: Vec::new() });
    assert_eq!(pad.stream_mode(), StreamMode::Receive);
    for _ in 0..3 {
        tick(&mut pad);
    }
    assert_eq!(count(pad.figure().get_ref(), WHITE), 128 * 128);
    server(&mut pad, PlayerResponse::Chunk { bin: encode_chunk(&good) });
    tick(&mut pad);
    tick(&mut pad);
    assert_eq!(count(pad.figure().get_ref(), BLACK), 1);
}

#[test]
fn game_events_switch_the_mode() {
    let mut pad = Drawpad::create();
    server(&mut pad, PlayerResponse::GameStart);
    assert_eq!(pad.stream_mode(), StreamMode::Receive);
    server(&mut pad, PlayerResponse::Topic { topic_word: "cat".to_string() });
    assert_eq!(pad.stream_mode(), StreamMode::Push);
    server(&mut pad, PlayerResponse::MarkEnd);
    assert_eq!(pad.stream_mode(), StreamMode::Push);
    server(&mut pad, PlayerResponse::TurnEnd);
    assert_eq!(pad.stream_mode(), StreamMode::Receive);
    server(&mut pad, PlayerResponse::GameEnd);
    assert_eq!(pad.stream_mode(), StreamMode::Offline);
    assert_eq!(
        pad.take_frame(),
        frame_of(&[Instruction::Reset, Instruction::Reset, Instruction::Reset])
    );
}

#[test]
fn other_messages_do_not_concern_the_pad() {
    let mut pad = Drawpad::create();
    pad.update(DrawpadMsg::Req(DrawpadReq::SetStreamMode(StreamMode::Push)), None);
    for resp in [
        PlayerResponse::Chat { sender: "a".to_string(), msg: "b".to_string() },
        PlayerResponse::Notice { msg: "n".to_string() },
        PlayerResponse::Warn { msg: "w".to_string() },
        PlayerResponse::TurnStart(3),
        PlayerResponse::MarkStart,
        PlayerResponse::Poll,
        PlayerResponse::PlayerStates(Vec::new()),
        PlayerResponse::CountDown(9),
        PlayerResponse::RoomFullfilled,
    ] {
        server(&mut pad, resp);
    }
    assert_eq!(pad.stream_mode(), StreamMode::Push);
    assert_eq!(pad.take_frame(), Frame::new());
}

#[test]
fn what_is_gathered_while_receiving_is_dropped_at_the_tick() {
    let mut pad = Drawpad::create();
    pointer(&mut pad, (100, 200), PointerAction::Down, 1);
    pointer(&mut pad, (100, 220), PointerAction::Up, 0);
    tick(&mut pad);
    assert_eq!(count(pad.figure().get_ref(), BLACK), 6);
    server(&mut pad, PlayerResponse::TurnEnd);
    pad.update(DrawpadMsg::CtrlZ, None);
    tick(&mut pad);
    // Neither the reset nor the undo was rendered.
    assert_eq!(count(pad.figure().get_ref(), BLACK), 6);
    assert_eq!(pad.take_frame(), Frame::new());
    server(&mut pad, PlayerResponse::GameEnd);
    tick(&mut pad);
    assert_eq!(count(pad.figure().get_ref(), BLACK), 6);
}

#[test]
fn a_reset_gathered_while_pushing_reaches_the_watchers() {
    let mut drawer = Drawpad::create();
    let mut watcher = Drawpad::create();
    watcher.update(DrawpadMsg::Req(DrawpadReq::SetStreamMode(StreamMode::Receive)), None);
    // A stroke that both have on their grids.
    let old = vec![frame_of(&[Instruction::PointerDown((0, 0)), Instruction::PointerUp((0, 5))])];
    server(&mut watcher, PlayerResponse::Chunk { bin: encode_chunk(&old) });
    tick(&mut watcher);
    tick(&mut watcher);
    pointer(&mut drawer, (100, 200), PointerAction::Down, 1);
    pointer(&mut drawer, (100, 220), PointerAction::Up, 0);
    tick(&mut drawer);
    assert_eq!(count(drawer.figure().get_ref(), BLACK), 6);
    assert_eq!(count(watcher.figure().get_ref(), BLACK), 6);

    server(&mut drawer, PlayerResponse::Topic { topic_word: "cat".to_string() });
    server(&mut drawer, PlayerResponse::MarkEnd);
    let mut sent = None;
    for _ in 0..15 {
        if let Some(bin) = tick(&mut drawer) {
            sent = Some(bin);
        }
    }
    assert_eq!(count(drawer.figure().get_ref(), BLACK), 0);
    let bin = sent.expect("a chunk after fifteen ticks");
    let chunk = decode_chunk(&bin).expect("decodes");
    assert_eq!(chunk.len(), 15);
    assert_eq!(chunk[0], frame_of(&[Instruction::Reset]));
    server(&mut watcher, PlayerResponse::Chunk { bin });
    tick(&mut watcher);
    tick(&mut watcher);
    assert_eq!(count(watcher.figure().get_ref(), BLACK), 0);
}

fn same_grid(a: &Data, b: &Data) -> bool {
    for x in 0..128 {
        for y in 0..128 {
            if a[x][y] != b[x][y] {
                return false;
            }
        }
    }
    true
}

#[test]
fn a_watcher_ends_with_the_grid_of_the_drawer() {
    let mut drawer = Drawpad::create();
    let mut watcher = Drawpad::create();
    server(&mut drawer, PlayerResponse::GameStart);
    server(&mut watcher, PlayerResponse::GameStart);
    server(&mut drawer, PlayerResponse::Topic { topic_word: "tree".to_string() });
    assert_eq!(drawer.stream_mode(), StreamMode::Push);
    assert_eq!(watcher.stream_mode(), StreamMode::Receive);

    let mut state: u32 = 2024;
    let mut next = |bound: u32| {
        state = state.wrapping_mul(1664525).wrapping_add(1013904223);
        ((state >> 16) % bound) as i32
    };
    // Fifteen chunks of ticks: strokes of both tools, undo, redo and clear,
    // spread over the ticks as they come.
    for t in 0..(15 * 15) {
        match next(9) {
            0 => pointer(&mut drawer, (100 + next(520), 200 + next(520)), PointerAction::Down, 1),
            1 => pointer(&mut drawer, (100 + next(520), 200 + next(520)), PointerAction::Down, 2),
            2 | 3 | 4 => {
                let buttons = 1 + next(2) as u16;
                pointer(&mut drawer, (100 + next(520), 200 + next(520)), PointerAction::Move, buttons)
            }
            5 => pointer(&mut drawer, (100 + next(520), 200 + next(520)), PointerAction::Up, 0),
            6 => {
                drawer.update(DrawpadMsg::CtrlZ, None);
            }
            7 => {
                drawer.update(DrawpadMsg::CtrlY, None);
            }
            _ => {
                if t % 40 == 0 {
                    drawer.update(DrawpadMsg::CtrlX, None);
                }
            }
        }
        // The watcher ticks just before the chunk can arrive, so that it has
        // always used up the last chunk when the next one comes.
        tick(&mut watcher);
        if let Some(bin) = tick(&mut drawer) {
            server(&mut watcher, PlayerResponse::Chunk { bin });
        }
    }
    for _ in 0..16 {
        tick(&mut watcher);
    }
    assert!(count(drawer.figure().get_ref(), WHITE) < 128 * 128);
    assert!(same_grid(drawer.figure().get_ref(), watcher.figure().get_ref()));
}
