//! The drawing pad: what happens to a session on each event.
//!
//! The pad owns the figure, the frame that pointer and key events fill, and
//! the loader and unloader of chunks. It decides; it does not touch the
//! screen or the network. Its caller hands it each event, and performs what
//! comes back: a request to send, and whether the grid is to be shown anew.
//!
//! Events only add instructions to the frame. All rendering happens on the
//! tick, which takes the frame and starts a fresh one. A pad that pushes
//! renders its own frame and sends it on in chunks. A pad that receives
//! renders the frames of the chunks that arrived; what its own events
//! gathered is dropped, for a player who watches does not draw.

use std::rc::Rc;
use vstd::prelude::*;
use vstd::seq_lib::lemma_flatten_concat;
use crate::canvas::Color;
use crate::chunk::{frames_of, loaded_chunk, loaded_rest, unloaded_frame, unloaded_rest, ChunkLoader, ChunkUnloader, Frames};
use crate::consts::{CHUNK_FRAMES, DRAWPAD_H, DRAWPAD_W, SCREEN_SCALE};
use crate::figure::{FigureLocal, FigureView};
use crate::frame::Frame;
use crate::operation::{Instruction, Tool};
use crate::protocol::{PlayerRequest, PlayerResponse};
use crate::wire::{chunk_bytes, decode_chunk, encode_chunk, parse_chunk};

verus! {

/// Where the frames that the figure renders come from, and whether they are
/// sent on.
#[derive(Debug, Clone, Copy, PartialEq, Eq, Structural)]
pub enum StreamMode {
    /// This player draws: the pad renders its own frames and sends them.
    Push,
    /// This player watches: the pad renders the frames that arrive, and
    /// drops its own.
    Receive,
    /// Neither: the pad renders its own frames and sends nothing.
    Offline,
}

/// What the pointer did.
#[derive(Debug, Clone, Copy, PartialEq, Eq, Structural)]
pub enum PointerAction {
    Down,
    Up,
    Move,
}

/// A request to the pad from the rest of the program.
#[derive(Debug, Clone, Copy, PartialEq, Eq, Structural)]
pub enum DrawpadReq {
    SetColor(Color),
    SetTool(Tool),
    Clear,
    SetStreamMode(StreamMode),
}

/// An event for the pad.
pub enum DrawpadMsg {
    /// A pointer event at the screen position `coor`, with the mask of the
    /// buttons that are down.
    Pointer { coor: (i32, i32), action: PointerAction, buttons: u16 },
    /// The tick.
    Frame,
    /// The key for undo.
    CtrlZ,
    /// The key for redo.
    CtrlY,
    /// The key for clear.
    CtrlX,
    /// The key that switches between pencil and eraser.
    HotKeyE,
    Req(DrawpadReq),
    /// A message from the server.
    Ws(Rc<PlayerResponse>),
}

/// What the caller is to do after an event.
pub struct Effect {
    /// A request to send to the server, if any.
    pub send: Option<PlayerRequest>,
    /// Whether the figure rendered, so that the grid is to be shown anew.
    pub repaint: bool,
}

/// The mask of the primary pointer button alone.
pub const PRIMARY_BUTTON: u16 = 1;

/// The mask of the secondary pointer button alone.
pub const SECONDARY_BUTTON: u16 = 2;

/// The grid coordinate of a screen coordinate, for a grid of `extent` cells
/// that is shown from `origin` on: the distance from the origin, cut to
/// `0..=512`, in cells of `SCREEN_SCALE` screen pixels, and no more than the
/// last cell.
pub open spec fn grid_coord(screen: int, origin: int, extent: int) -> int {
    let d = screen - origin;
    let cut = if d < 0 {
        0
    } else if d > 512 {
        512
    } else {
        d
    };
    if cut / (SCREEN_SCALE as int) > extent - 1 {
        extent - 1
    } else {
        cut / (SCREEN_SCALE as int)
    }
}

/// Whether exactly one of the two drawing buttons is down.
pub open spec fn drawing_buttons(buttons: u16) -> bool {
    buttons == PRIMARY_BUTTON || buttons == SECONDARY_BUTTON
}

/// The instructions that a pointer going down at `c` adds. The primary
/// button draws with the tool in force and the secondary with the other
/// one; a pencil stroke first sets the colour. Any other mask adds nothing.
pub open spec fn pointer_down_instructions(
    tool: Tool,
    color: Color,
    buttons: u16,
    c: (u8, u8),
) -> Seq<Instruction> {
    if (tool == Tool::Pencil && buttons == PRIMARY_BUTTON) || (tool == Tool::Eraser && buttons
        == SECONDARY_BUTTON) {
        seq![
            Instruction::SetColor(color),
            Instruction::SetTool(Tool::Pencil),
            Instruction::PointerDown(c),
        ]
    } else if (tool == Tool::Pencil && buttons == SECONDARY_BUTTON) || (tool == Tool::Eraser
        && buttons == PRIMARY_BUTTON) {
        seq![Instruction::SetTool(Tool::Eraser), Instruction::PointerDown(c)]
    } else {
        Seq::empty()
    }
}

/// The model of a [`Drawpad`].
pub struct DrawpadView {
    /// The colour that the next pencil stroke is started with.
    pub color: Color,
    /// The tool that the primary button draws with.
    pub tool: Tool,
    /// The button mask of the last pointer-down.
    pub buttons: u16,
    pub figure: FigureView,
    /// The instructions gathered since the pad last took its frame.
    pub frame: Seq<Instruction>,
    /// The frames of the chunks that arrived since the last tick.
    pub arrived: Frames,
    /// The frames that the unloader still holds.
    pub pending: Frames,
    /// The frames that the loader holds.
    pub buffered: Frames,
    pub mode: StreamMode,
}

impl DrawpadView {
    /// The figure is well formed and the loader holds less than a chunk.
    pub open spec fn wf(self) -> bool {
        self.figure.wf() && self.buffered.len() < CHUNK_FRAMES
    }

    /// The pad at the start: a black pencil, a blank figure, nothing
    /// gathered, offline.
    pub open spec fn create() -> Self {
        DrawpadView {
            color: Color { r: 0, g: 0, b: 0 },
            tool: Tool::Pencil,
            buttons: 0,
            figure: FigureView::blank(),
            frame: Seq::empty(),
            arrived: Seq::empty(),
            pending: Seq::empty(),
            buffered: Seq::empty(),
            mode: StreamMode::Offline,
        }
    }

    /// The pad with `ins` added to its frame.
    pub open spec fn push_instruction(self, ins: Instruction) -> Self {
        DrawpadView { frame: self.frame.push(ins), ..self }
    }

    /// The pad after a pointer event at the screen position `coor`, the
    /// grid being shown from `origin` on.
    ///
    /// Down adds the instructions of [`pointer_down_instructions`] and notes
    /// the mask. Up adds a pointer-up if the noted mask was a drawing one,
    /// and forgets it. Move adds a pointer-move while a drawing button is
    /// down.
    pub open spec fn pointer(
        self,
        coor: (i32, i32),
        origin: (i32, i32),
        action: PointerAction,
        buttons: u16,
    ) -> Self {
        let c = (
            grid_coord(coor.0 as int, origin.0 as int, DRAWPAD_W as int) as u8,
            grid_coord(coor.1 as int, origin.1 as int, DRAWPAD_H as int) as u8,
        );
        match action {
            PointerAction::Down => DrawpadView {
                frame: self.frame + pointer_down_instructions(self.tool, self.color, buttons, c),
                buttons,
                ..self
            },
            PointerAction::Up => DrawpadView {
                frame: if drawing_buttons(self.buttons) {
                    self.frame.push(Instruction::PointerUp(c))
                } else {
                    self.frame
                },
                buttons: 0,
                ..self
            },
            PointerAction::Move => DrawpadView {
                frame: if drawing_buttons(buttons) {
                    self.frame.push(Instruction::PointerMove(c))
                } else {
                    self.frame
                },
                ..self
            },
        }
    }

    /// What the unloader is handed on a tick: the frames that arrived, as
    /// one chunk, or nothing where none arrived.
    pub open spec fn arrival(self) -> Option<Frames> {
        if self.arrived.len() == 0 {
            None
        } else {
            Some(self.arrived)
        }
    }

    /// The frame that a tick renders: from the unloader when receiving, else
    /// the pad's own.
    pub open spec fn tick_frame(self) -> Seq<Instruction> {
        if self.mode == StreamMode::Receive {
            unloaded_frame(self.pending, self.arrival())
        } else {
            self.frame
        }
    }

    /// The chunk that a tick completes, if it does: only when pushing.
    pub open spec fn tick_chunk(self) -> Option<Frames> {
        if self.mode == StreamMode::Push {
            loaded_chunk(CHUNK_FRAMES as nat, self.buffered, self.tick_frame())
        } else {
            None
        }
    }

    /// The pad after a tick. The pad's own frame is taken and a fresh one
    /// started, in every mode, and the figure renders the frame of the tick.
    /// When receiving, that frame comes from the unloader, which takes what
    /// arrived, and the pad's own frame is dropped. Otherwise it is the
    /// pad's own frame, and when pushing the loader takes it as well.
    pub open spec fn tick(self) -> Self {
        let frame = self.tick_frame();
        let figure = self.figure.render_frame(frame);
        if self.mode == StreamMode::Receive {
            DrawpadView {
                figure,
                frame: Seq::empty(),
                pending: unloaded_rest(self.pending, self.arrival()),
                arrived: Seq::empty(),
                ..self
            }
        } else {
            DrawpadView {
                figure,
                frame: Seq::empty(),
                buffered: if self.mode == StreamMode::Push {
                    loaded_rest(CHUNK_FRAMES as nat, self.buffered, frame)
                } else {
                    self.buffered
                },
                ..self
            }
        }
    }

    /// The pad after a request.
    pub open spec fn request(self, req: DrawpadReq) -> Self {
        match req {
            DrawpadReq::SetTool(t) => DrawpadView { tool: t, ..self },
            DrawpadReq::SetColor(c) => DrawpadView { color: c, ..self },
            DrawpadReq::SetStreamMode(m) => DrawpadView { mode: m, ..self },
            DrawpadReq::Clear => self.push_instruction(Instruction::Clear),
        }
    }

    /// The pad after the bytes of a chunk came from the server. They count
    /// only while receiving: the frames that they decode to join those that
    /// arrived. Bytes that do not decode change nothing.
    pub open spec fn chunk_arrived(self, bytes: Seq<u8>) -> Self {
        if self.mode == StreamMode::Receive {
            match parse_chunk(bytes) {
                Some((frames, _)) => DrawpadView { arrived: self.arrived + frames, ..self },
                None => self,
            }
        } else {
            self
        }
    }

    /// The pad with `instructions` added to its frame.
    pub open spec fn gathering(self, instructions: Seq<Instruction>) -> Self {
        DrawpadView { frame: self.frame + instructions, ..self }
    }

    /// The pad after a message from the server.
    ///
    /// - A chunk counts only while receiving: its frames join those that
    ///   arrived. Bytes that do not decode are dropped and change nothing.
    /// - A topic makes this player the one who draws: the pad pushes.
    /// - The start of a game and the end of a turn add a reset to the frame,
    ///   and the pad receives.
    /// - The end of a game takes the pad offline.
    /// - The end of a marking phase adds a reset to the frame.
    /// - Nothing else concerns the pad.
    pub open spec fn response(self, resp: PlayerResponse) -> Self {
        match resp {
            PlayerResponse::Chunk { bin } => self.chunk_arrived(bin@),
            PlayerResponse::Topic { .. } => DrawpadView { mode: StreamMode::Push, ..self },
            PlayerResponse::GameStart | PlayerResponse::TurnEnd => DrawpadView {
                mode: StreamMode::Receive,
                ..self.push_instruction(Instruction::Reset)
            },
            PlayerResponse::GameEnd => DrawpadView { mode: StreamMode::Offline, ..self },
            PlayerResponse::MarkEnd => self.push_instruction(Instruction::Reset),
            _ => self,
        }
    }

    /// The pad with the other tool.
    pub open spec fn toggle_tool(self) -> Self {
        DrawpadView {
            tool: match self.tool {
                Tool::Eraser => Tool::Pencil,
                Tool::Pencil => Tool::Eraser,
            },
            ..self
        }
    }

    /// The pad after the event `msg`. `origin` is the screen position from
    /// which the grid is shown, or `None` while it is not shown: a pointer
    /// event then changes nothing.
    pub open spec fn update(self, msg: DrawpadMsg, origin: Option<(i32, i32)>) -> Self {
        match msg {
            DrawpadMsg::Pointer { coor, action, buttons } => match origin {
                Some(o) => self.pointer(coor, o, action, buttons),
                None => self,
            },
            DrawpadMsg::CtrlY => self.push_instruction(Instruction::Redo),
            DrawpadMsg::CtrlZ => self.push_instruction(Instruction::Undo),
            DrawpadMsg::CtrlX => self.push_instruction(Instruction::Clear),
            DrawpadMsg::Frame => self.tick(),
            DrawpadMsg::Req(req) => self.request(req),
            DrawpadMsg::Ws(resp) => self.response(*resp),
            DrawpadMsg::HotKeyE => self.toggle_tool(),
        }
    }

    /// The bytes that the event `msg` sends to the server, if it sends
    /// any: those of the chunk that a tick completes.
    pub open spec fn sends(self, msg: DrawpadMsg) -> Option<Seq<u8>> {
        match msg {
            DrawpadMsg::Frame => match self.tick_chunk() {
                Some(frames) => Some(chunk_bytes(frames)),
                None => None,
            },
            _ => None,
        }
    }
}

/// The grid coordinate of a screen coordinate.
fn to_grid(screen: i32, origin: i32, extent: usize) -> (c: u8)
    requires
        1 <= extent <= 256,
    ensures
        c == grid_coord(screen as int, origin as int, extent as int),
{
    let d: i64 = screen as i64 - origin as i64;
    let cut: i64 = if d < 0 {
        0
    } else if d > 512 {
        512
    } else {
        d
    };
    let cell: i64 = cut / (SCREEN_SCALE as i64);
    if cell > extent as i64 - 1 {
        (extent - 1) as u8
    } else {
        cell as u8
    }
}

/// The engine of a drawing session.
pub struct Drawpad {
    color: Color,
    tool: Tool,
    buttons: u16,
    figure: FigureLocal,
    frame: Frame,
    chunk_to_unload: Vec<Frame>,
    chunk_unloader: ChunkUnloader,
    chunk_loader: ChunkLoader<CHUNK_FRAMES>,
    stream_mode: StreamMode,
}

impl View for Drawpad {
    type V = DrawpadView;

    closed spec fn view(&self) -> DrawpadView {
        DrawpadView {
            color: self.color,
            tool: self.tool,
            buttons: self.buttons,
            figure: self.figure@,
            frame: self.frame@,
            arrived: frames_of(self.chunk_to_unload@),
            pending: self.chunk_unloader@,
            buffered: self.chunk_loader@,
            mode: self.stream_mode,
        }
    }
}

impl Drawpad {
    /// Whether the pad is well formed.
    pub closed spec fn wf(&self) -> bool {
        &&& self@.wf()
        &&& self.figure.wf()
        &&& self.chunk_unloader.wf()
        &&& self.chunk_loader.wf()
    }

    /// The pad at the start of a session.
    pub fn create() -> (pad: Self)
        ensures
            pad@ == DrawpadView::create(),
            pad.wf(),
    {
        let pad = Drawpad {
            color: Color::new(0, 0, 0),
            tool: Tool::Pencil,
            buttons: 0,
            figure: FigureLocal::blank(),
            frame: Frame::new(),
            chunk_to_unload: Vec::new(),
            stream_mode: StreamMode::Offline,
            chunk_loader: ChunkLoader::new(),
            chunk_unloader: ChunkUnloader::new(),
        };
        assert(frames_of(pad.chunk_to_unload@) =~= Frames::empty());
        pad
    }

    /// The figure, to read.
    pub fn figure(&self) -> (fig: &FigureLocal)
        ensures
            fig@ == self@.figure,
    {
        &self.figure
    }

    /// The mode that the pad is in.
    pub fn stream_mode(&self) -> (mode: StreamMode)
        ensures
            mode == self@.mode,
    {
        self.stream_mode
    }

    /// The tool that the primary button draws with.
    pub fn tool(&self) -> (tool: Tool)
        ensures
            tool == self@.tool,
    {
        self.tool
    }

    /// Takes the frame gathered so far and starts a fresh one.
    pub fn take_frame(&mut self) -> (frame: Frame)
        requires
            old(self).wf(),
        ensures
            frame@ == old(self)@.frame,
            final(self)@ == (DrawpadView { frame: Seq::empty(), ..old(self)@ }),
            final(self).wf(),
    {
        let mut frame = Frame { instructions: Vec::new() };
        std::mem::swap(&mut frame, &mut self.frame);
        frame
    }

    /// Adds `ins` to the frame: the only way an instruction gets there.
    pub fn push_instruction(&mut self, ins: Instruction)
        requires
            old(self).wf(),
        ensures
            final(self)@ == old(self)@.push_instruction(ins),
            final(self).wf(),
    {
        self.frame.push(ins);
    }

    /// Handles a pointer event at the screen position `coor`, the grid
    /// being shown from `origin` on.
    pub fn pointer(
        &mut self,
        coor: (i32, i32),
        origin: (i32, i32),
        action: PointerAction,
        buttons: u16,
    )
        requires
            old(self).wf(),
        ensures
            final(self)@ == old(self)@.pointer(coor, origin, action, buttons),
            final(self).wf(),
    {
        let x = to_grid(coor.0, origin.0, DRAWPAD_W);
        let y = to_grid(coor.1, origin.1, DRAWPAD_H);
        match action {
            PointerAction::Down => {
                let ghost before = self@.frame;
                let ghost added = pointer_down_instructions(self.tool, self.color, buttons, (x, y));
                match (self.tool, buttons) {
                    (Tool::Pencil, PRIMARY_BUTTON) | (Tool::Eraser, SECONDARY_BUTTON) => {
                        self.push_instruction(Instruction::SetColor(self.color));
                        self.push_instruction(Instruction::SetTool(Tool::Pencil));
                        self.push_instruction(Instruction::PointerDown((x, y)));
                    },
                    (Tool::Pencil, SECONDARY_BUTTON) | (Tool::Eraser, PRIMARY_BUTTON) => {
                        self.push_instruction(Instruction::SetTool(Tool::Eraser));
                        self.push_instruction(Instruction::PointerDown((x, y)));
                    },
                    _ => {},
                }
                assert(self@.frame =~= before + added);
                self.buttons = buttons;
            },
            PointerAction::Up => {
                if self.buttons == PRIMARY_BUTTON || self.buttons == SECONDARY_BUTTON {
                    self.push_instruction(Instruction::PointerUp((x, y)));
                }
                self.buttons = 0;
            },
            PointerAction::Move => {
                if buttons == PRIMARY_BUTTON || buttons == SECONDARY_BUTTON {
                    self.push_instruction(Instruction::PointerMove((x, y)));
                }
            },
        }
    }

    /// The tick: renders the frame of this tick, and when pushing hands it
    /// to the loader. Returns the request that carries the chunk, once the
    /// loader has completed one.
    pub fn tick(&mut self) -> (send: Option<PlayerRequest>)
        requires
            old(self).wf(),
        ensures
            final(self)@ == old(self)@.tick(),
            final(self).wf(),
            match send {
                Some(req) => req matches PlayerRequest::Chunk { bin } && old(self)@.tick_chunk()
                    matches Some(frames) && bin@ == chunk_bytes(frames),
                None => old(self)@.tick_chunk() is None,
            },
    {
        let own = self.take_frame();
        let frame = if self.stream_mode == StreamMode::Receive {
            if self.chunk_to_unload.len() == 0 {
                assert(frames_of(self.chunk_to_unload@) =~= Frames::empty());
                self.chunk_unloader.unload(None)
            } else {
                let mut chunk_to_unload: Vec<Frame> = Vec::new();
                std::mem::swap(&mut chunk_to_unload, &mut self.chunk_to_unload);
                assert(frames_of(self.chunk_to_unload@) =~= Frames::empty());
                self.chunk_unloader.unload(Some(chunk_to_unload))
            }
        } else {
            own
        };

        self.figure.render_frame(&frame);

        let mut send: Option<PlayerRequest> = None;
        if self.stream_mode == StreamMode::Push {
            if let Some(chunk) = self.chunk_loader.load(frame) {
                let bin = encode_chunk(&chunk);
                send = Some(PlayerRequest::Chunk { bin });
            }
        }
        send
    }

    /// Handles a request from the rest of the program.
    pub fn request(&mut self, req: DrawpadReq)
        requires
            old(self).wf(),
        ensures
            final(self)@ == old(self)@.request(req),
            final(self).wf(),
    {
        match req {
            DrawpadReq::SetTool(t) => {
                self.tool = t;
            },
            DrawpadReq::SetColor(c) => {
                self.color = c;
            },
            DrawpadReq::SetStreamMode(stream_mode) => {
                self.stream_mode = stream_mode;
            },
            DrawpadReq::Clear => {
                self.push_instruction(Instruction::Clear);
            },
        }
    }

    /// Handles a message from the server.
    pub fn response(&mut self, resp: &PlayerResponse)
        requires
            old(self).wf(),
        ensures
            final(self)@ == old(self)@.response(*resp),
            final(self).wf(),
    {
        match resp {
            PlayerResponse::Chunk { bin } => {
                if self.stream_mode == StreamMode::Receive {
                    if let Some(mut chunk) = decode_chunk(bin.as_slice()) {
                        let ghost before = frames_of(self.chunk_to_unload@);
                        let ghost added = frames_of(chunk@);
                        self.chunk_to_unload.append(&mut chunk);
                        assert(frames_of(self.chunk_to_unload@) =~= before + added);
                    }
                }
            },
            PlayerResponse::Topic { topic_word: _ } => {
                self.stream_mode = StreamMode::Push;
            },
            PlayerResponse::GameStart | PlayerResponse::TurnEnd => {
                self.push_instruction(Instruction::Reset);
                self.stream_mode = StreamMode::Receive;
            },
            PlayerResponse::GameEnd => {
                self.stream_mode = StreamMode::Offline;
            },
            PlayerResponse::MarkEnd => {
                self.push_instruction(Instruction::Reset);
            },
            _ => {},
        }
    }

    /// Switches between pencil and eraser.
    pub fn toggle_tool(&mut self)
        requires
            old(self).wf(),
        ensures
            final(self)@ == old(self)@.toggle_tool(),
            final(self).wf(),
    {
        match self.tool {
            Tool::Eraser => {
                self.tool = Tool::Pencil;
            },
            Tool::Pencil => {
                self.tool = Tool::Eraser;
            },
        }
    }

    /// Handles the event `msg`. `origin` is the screen position from which
    /// the grid is shown, or `None` while it is not shown. What comes back
    /// says what to send, and whether the figure rendered.
    pub fn update(&mut self, msg: DrawpadMsg, origin: Option<(i32, i32)>) -> (effect: Effect)
        requires
            old(self).wf(),
        ensures
            final(self)@ == old(self)@.update(msg, origin),
            final(self).wf(),
            effect.repaint == (msg is Frame),
            match effect.send {
                Some(req) => req matches PlayerRequest::Chunk { bin } && old(self)@.sends(msg)
                    == Some(bin@),
                None => old(self)@.sends(msg) is None,
            },
    {
        match msg {
            DrawpadMsg::Pointer { coor, action, buttons } => {
                if let Some(o) = origin {
                    self.pointer(coor, o, action, buttons);
                }
                Effect { send: None, repaint: false }
            },
            DrawpadMsg::CtrlY => {
                self.push_instruction(Instruction::Redo);
                Effect { send: None, repaint: false }
            },
            DrawpadMsg::CtrlZ => {
                self.push_instruction(Instruction::Undo);
                Effect { send: None, repaint: false }
            },
            DrawpadMsg::CtrlX => {
                self.push_instruction(Instruction::Clear);
                Effect { send: None, repaint: false }
            },
            DrawpadMsg::Frame => {
                let send = self.tick();
                Effect { send, repaint: true }
            },
            DrawpadMsg::Req(req) => {
                self.request(req);
                Effect { send: None, repaint: false }
            },
            DrawpadMsg::Ws(resp) => {
                self.response(&*resp);
                Effect { send: None, repaint: false }
            },
            DrawpadMsg::HotKeyE => {
                self.toggle_tool();
                Effect { send: None, repaint: false }
            },
        }
    }
}

/// What happens to a pad that watches: a tick, or the bytes of a chunk from
/// the server.
pub enum WatchEvent {
    Tick,
    Chunk(Seq<u8>),
}

/// A pad after the events of `events` in order, and the frames that its
/// ticks rendered, one for each tick.
pub open spec fn watched(pad: DrawpadView, events: Seq<WatchEvent>) -> (DrawpadView, Frames)
    decreases events.len(),
{
    if events.len() == 0 {
        (pad, Seq::empty())
    } else {
        let (before, rendered) = watched(pad, events.drop_last());
        match events.last() {
            WatchEvent::Tick => (before.tick(), rendered.push(before.tick_frame())),
            WatchEvent::Chunk(bytes) => (before.chunk_arrived(bytes), rendered),
        }
    }
}

/// The frames of the chunks among `events` that decode, in order.
pub open spec fn delivered(events: Seq<WatchEvent>) -> Frames
    decreases events.len(),
{
    if events.len() == 0 {
        Seq::empty()
    } else {
        match events.last() {
            WatchEvent::Chunk(bytes) => match parse_chunk(bytes) {
                Some((frames, _)) => delivered(events.drop_last()) + frames,
                None => delivered(events.drop_last()),
            },
            WatchEvent::Tick => delivered(events.drop_last()),
        }
    }
}

/// A pad that receives renders every instruction that is delivered to it
/// once, in order: whatever chunks arrive between whatever ticks, the
/// instructions that the ticks rendered, followed by those that wait in the
/// unloader and those that arrived since the last tick, are the
/// instructions that waited at first followed by those of the chunks that
/// were delivered. The pad stays in its mode, and nothing that its own
/// events gathered is rendered.
pub proof fn law_watching_conserves(pad: DrawpadView, events: Seq<WatchEvent>)
    requires
        pad.mode == StreamMode::Receive,
    ensures
        ({
            let (after, rendered) = watched(pad, events);
            &&& after.mode == StreamMode::Receive
            &&& rendered.flatten() + after.pending.flatten() + after.arrived.flatten()
                == pad.pending.flatten() + pad.arrived.flatten() + delivered(events).flatten()
        }),
    decreases events.len(),
{
    let (after, rendered) = watched(pad, events);
    if events.len() == 0 {
        assert(rendered.flatten() =~= Seq::<Instruction>::empty());
        assert(delivered(events).flatten() =~= Seq::<Instruction>::empty());
        assert(rendered.flatten() + after.pending.flatten() + after.arrived.flatten()
            =~= pad.pending.flatten() + pad.arrived.flatten() + delivered(events).flatten());
    } else {
        law_watching_conserves(pad, events.drop_last());
        let (before, earlier) = watched(pad, events.drop_last());
        let start = pad.pending.flatten() + pad.arrived.flatten();
        let a = earlier.flatten();
        let b = before.pending.flatten();
        let c = before.arrived.flatten();
        let d = delivered(events.drop_last()).flatten();
        assert(a + b + c == start + d);
        assert(Frames::empty().flatten() =~= Seq::<Instruction>::empty());
        match events.last() {
            WatchEvent::Tick => {
                let frame = before.tick_frame();
                earlier.lemma_flatten_push(frame);
                assert(rendered.flatten() == a + frame);
                assert(after.arrived.flatten() =~= Seq::<Instruction>::empty());
                assert(delivered(events) == delivered(events.drop_last()));
                if before.arrived.len() == 0 {
                    assert(before.arrived =~= Frames::empty());
                    assert(c =~= Seq::<Instruction>::empty());
                    if before.pending.len() > 0 {
                        assert(b =~= before.pending[0] + before.pending.drop_first().flatten());
                    }
                    assert(frame + after.pending.flatten() =~= b);
                    assert(a + frame + after.pending.flatten() + after.arrived.flatten() =~= a + b
                        + c);
                } else {
                    assert(frame == b);
                    assert(after.pending == before.arrived);
                    assert(a + frame + after.pending.flatten() + after.arrived.flatten() =~= a + b
                        + c);
                }
            },
            WatchEvent::Chunk(bytes) => {
                assert(rendered == earlier);
                assert(after.pending == before.pending);
                match parse_chunk(bytes) {
                    Some((frames, _)) => {
                        let f = frames.flatten();
                        lemma_flatten_concat(before.arrived, frames);
                        lemma_flatten_concat(delivered(events.drop_last()), frames);
                        assert(after.arrived.flatten() == c + f);
                        assert(delivered(events).flatten() == d + f);
                        assert(a + b + (c + f) =~= (a + b + c) + f);
                        assert((start + d) + f =~= start + (d + f));
                    },
                    None => {
                        assert(after == before);
                    },
                }
            },
        }
    }
}

/// A pad that pushes, ticked once for each of `gathered` after the
/// instructions of that one were added to its frame: the pad in the end,
/// the frames that its ticks rendered, and the chunks that it sent.
pub open spec fn pushed(pad: DrawpadView, gathered: Frames) -> (DrawpadView, Frames, Seq<Frames>)
    decreases gathered.len(),
{
    if gathered.len() == 0 {
        (pad, Seq::empty(), Seq::empty())
    } else {
        let (before, rendered, sent) = pushed(pad, gathered.drop_last());
        let ready = before.gathering(gathered.last());
        (
            ready.tick(),
            rendered.push(ready.tick_frame()),
            match ready.tick_chunk() {
                Some(chunk) => sent.push(chunk),
                None => sent,
            },
        )
    }
}

/// A pad that pushes sends every frame that it renders once, in order, in
/// chunks of `CHUNK_FRAMES` frames: the frames that the loader held at
/// first followed by the frames that the ticks rendered are the chunks that
/// were sent, joined, followed by the frames that the loader holds in the
/// end. Each tick renders what was gathered since the last one.
pub proof fn law_pushing_batches(pad: DrawpadView, gathered: Frames)
    requires
        pad.mode == StreamMode::Push,
        pad.buffered.len() < CHUNK_FRAMES,
    ensures
        ({
            let (after, rendered, sent) = pushed(pad, gathered);
            &&& after.mode == StreamMode::Push
            &&& after.frame.len() == 0 || gathered.len() == 0
            &&& after.buffered.len() < CHUNK_FRAMES
            &&& rendered.len() == gathered.len()
            &&& forall|i: int| 1 <= i < gathered.len() ==> #[trigger] rendered[i] == gathered[i]
            &&& gathered.len() > 0 ==> rendered[0] == pad.frame + gathered[0]
            &&& forall|i: int| 0 <= i < sent.len() ==> (#[trigger] sent[i]).len() == CHUNK_FRAMES
            &&& sent.flatten() + after.buffered == pad.buffered + rendered
        }),
    decreases gathered.len(),
{
    let (after, rendered, sent) = pushed(pad, gathered);
    if gathered.len() == 0 {
        assert(sent.flatten() =~= Frames::empty());
        assert(sent.flatten() + after.buffered =~= pad.buffered + rendered);
    } else {
        law_pushing_batches(pad, gathered.drop_last());
        let (before, earlier, earlier_sent) = pushed(pad, gathered.drop_last());
        let ready = before.gathering(gathered.last());
        let frame = ready.tick_frame();
        assert(frame == before.frame + gathered.last());
        if gathered.len() > 1 {
            assert(before.frame.len() == 0);
            assert(frame =~= gathered.last());
        } else {
            assert(before == pad);
        }
        assert(rendered == earlier.push(frame));
        assert(earlier_sent.flatten() + before.buffered == pad.buffered + earlier);
        match ready.tick_chunk() {
            Some(chunk) => {
                earlier_sent.lemma_flatten_push(chunk);
                assert(chunk == before.buffered.push(frame));
                assert(after.buffered =~= Frames::empty());
                assert(sent.flatten() + after.buffered =~= (earlier_sent.flatten()
                    + before.buffered).push(frame));
                assert((pad.buffered + earlier).push(frame) =~= pad.buffered + rendered);
            },
            None => {
                assert(after.buffered == before.buffered.push(frame));
                assert(sent.flatten() + after.buffered =~= (earlier_sent.flatten()
                    + before.buffered).push(frame));
                assert((pad.buffered + earlier).push(frame) =~= pad.buffered + rendered);
            },
        }
    }
}

} // verus!
