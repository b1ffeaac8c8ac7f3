//! The messages that a player exchanges with the game server.
//!
//! The engine reads only a few of them: a chunk of frames from the player
//! who draws, and the events that start or end a game, a turn or a marking
//! phase. The others pass through to the rest of the program.

use vstd::prelude::*;

verus! {

/// What a player sends to the server.
#[derive(Debug, PartialEq)]
pub enum PlayerRequest {
    SetName { name: String },
    Chat { msg: String },
    ImReady,
    ImUnready,
    /// The bytes of a chunk of frames, for the players who watch.
    Chunk { bin: Vec<u8> },
    Mark { score: i8 },
    Lexicon(Vec<String>),
    LexiconService(u32),
    LexiconGit(String),
}

/// What the server tells of one player.
#[derive(Debug, PartialEq)]
pub struct PlayerState {
    pub name: String,
    pub idx: u8,
    pub ready: bool,
    pub score: [u8; 3],
    pub drawpoint: u8,
    pub timepoint: u16,
}

/// What the server sends to a player.
#[derive(Debug, PartialEq)]
pub enum PlayerResponse {
    Chat { sender: String, msg: String },
    Notice { msg: String },
    Warn { msg: String },
    GameStart,
    GameEnd,
    /// The word to draw: the player who gets it draws.
    Topic { topic_word: String },
    /// The bytes of a chunk of frames from the player who draws.
    Chunk { bin: Vec<u8> },
    TurnStart(u8),
    TurnEnd,
    MarkStart,
    Poll,
    MarkEnd,
    PlayerStates(Vec<PlayerState>),
    CountDown(u8),
    RoomFullfilled,
}

} // verus!
