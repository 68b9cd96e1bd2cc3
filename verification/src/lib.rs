//! A small real-time multiplayer board-game core: a board engine with win and
//! draw detection, a binary wire protocol between server and clients, a lobby
//! that registers connections and pairs waiting players, and a session
//! coordinator that drives one match between two players.
//!
//! Transport setup, sockets and rendering are left to the surrounding program;
//! this crate holds the verified game logic, from plain values to plain values.
use vstd::prelude::*;

pub mod client;
pub mod codec;
pub mod lobby;
pub mod session;
pub mod text;
pub mod tic_tac_toe;

verus! {

/// Server messages, indiscriminate of the selected game.
#[derive(Clone, PartialEq, Debug)]
pub enum ServerMessage {
    Ping(ServerStatus),
}

/// Server status sent to each client.
#[derive(Clone, Copy, PartialEq, Eq, Structural, Debug)]
pub struct ServerStatus {
    pub n_players: usize,
}

/// Wait time in milliseconds between two ticks of any polling worker.
pub const THREAD_SLEEP_MS: u64 = 100;

/// Time in milliseconds between two server status pings.
pub const PING_INTERVAL_MS: u64 = 1000;

/// Ratio between the ping interval and the tick interval.
pub const PING_INTERVAL: u64 = PING_INTERVAL_MS / THREAD_SLEEP_MS;

} // verus!
