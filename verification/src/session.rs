//! The session coordinator: the turn-based state machine that drives one
//! match between two players.
//!
//! The coordinator is written as a pure transition: once per scheduling tick
//! the surrounding program resolves which of the two players the registry
//! still holds, pops at most one inbound message from the current player, and
//! calls [`Session::tick`]. The result says what to send to whom, whose
//! status to set back to waiting, and whether the match is over; the
//! surrounding program performs those sends and re-runs the loop.
use vstd::prelude::*;

use crate::tic_tac_toe::{outcome_of, ClientState, End, Message, Piece, ServerState, Turn};
use crate::lobby::{contains_addr, Lobby};
use crate::text::occupied_msg;
use vstd::string::StringExecFns;

verus! {

/// The game a session plays. A single game kind is supported at a time.
#[derive(Clone, Copy, PartialEq, Eq, Structural, Debug)]
pub enum Game {
    TicTacToe,
}

/// One match being coordinated: the identities of its two players, in
/// seating order, and the selected game.
pub struct Session {
    pub player1: String,
    pub player2: String,
    pub game: Option<Game>,
}

/// Which of a session's two players the registry still holds at this tick.
#[derive(Clone, Copy, PartialEq, Eq, Structural, Debug)]
pub enum Presence {
    Both,
    OnlyFirst,
    OnlySecond,
    Neither,
}

/// Everything one tick of the coordinator asks the surrounding program to
/// do: messages for each player, status releases, and whether the
/// coordinator is done.
pub struct TickResult {
    pub to_player1: Vec<Message>,
    pub to_player2: Vec<Message>,
    pub release_player1: bool,
    pub release_player2: bool,
    pub finished: bool,
}

/// The messages a tick sends to the player in the given seat.
pub open spec fn sent_to(r: TickResult, seat: int) -> Seq<Message> {
    if seat == 0 {
        r.to_player1@
    } else {
        r.to_player2@
    }
}

/// The identity of the player in the given seat of a session.
pub open spec fn addr_of(s: Session, seat: int) -> Seq<char> {
    if seat == 0 {
        s.player1@
    } else {
        s.player2@
    }
}

/// `m` is the handshake message for a player: it names the opponent, assigns
/// the piece, and carries the board size with an empty grid.
pub open spec fn is_preamble_for(m: Message, opponent: Seq<char>, piece: Piece, size: usize) -> bool {
    &&& m matches Message::Preamble(c)
    &&& c.board@ == Seq::<Seq<Piece>>::empty()
    &&& c.board.size == size
    &&& c.turn == Turn::Begin
    &&& c.opponent@ == opponent
    &&& c.piece == piece
}

/// `m` rejects a move with exactly the given reason.
pub open spec fn is_invalid_move(m: Message, reason: Seq<char>) -> bool {
    m matches Message::InvalidMove(e) && e@ == reason
}

/// The reason sent when a move names a cell outside the board.
pub open spec fn out_of_range_reason() -> Seq<char> {
    "move out of range"@
}

/// The reason sent when something other than a move arrives during a turn.
pub open spec fn wrong_message_reason() -> Seq<char> {
    "wrong message type"@
}

impl ServerState {
    /// The two seat indices name the two players of a session.
    pub open spec fn seats_wf(&self) -> bool {
        &&& self.crosses_player <= 1
        &&& self.noughts_player <= 1
        &&& self.crosses_player != self.noughts_player
        &&& self.current_player != Piece::Empty
    }

    /// The seat of the player whose turn it is.
    pub open spec fn spec_current_seat(&self) -> int {
        if self.current_player == Piece::Cross {
            self.crosses_player as int
        } else {
            self.noughts_player as int
        }
    }

    /// The seat of the player waiting for the current one to move.
    pub open spec fn spec_other_seat(&self) -> int {
        if self.current_player == Piece::Cross {
            self.noughts_player as int
        } else {
            self.crosses_player as int
        }
    }

    /// The seat of the player whose turn it is; the surrounding program polls
    /// this player's inbound queue.
    pub fn current_seat(&self) -> (i: usize)
        ensures
            i == self.spec_current_seat(),
    {
        if self.current_player == Piece::Cross {
            self.crosses_player
        } else {
            self.noughts_player
        }
    }
}

impl Session {
    /// A new session between the two players of a freshly matched pair, in
    /// seating order, with no game selected yet.
    pub fn new(pair: (String, String)) -> (s: Self)
        ensures
            s.player1 == pair.0,
            s.player2 == pair.1,
            s.game is None,
    {
        let (player1, player2) = pair;
        Session { player1, player2, game: None }
    }

    /// Resolve this session's players against the live registry.
    pub fn presence(&self, lobby: &Lobby) -> (r: Presence)
        ensures
            r == (if contains_addr(lobby.players@, self.player1@) {
                if contains_addr(lobby.players@, self.player2@) {
                    Presence::Both
                } else {
                    Presence::OnlyFirst
                }
            } else {
                if contains_addr(lobby.players@, self.player2@) {
                    Presence::OnlySecond
                } else {
                    Presence::Neither
                }
            }),
    {
        let p1 = lobby.is_present(&self.player1);
        let p2 = lobby.is_present(&self.player2);
        if p1 && p2 {
            Presence::Both
        } else if p1 {
            Presence::OnlyFirst
        } else if p2 {
            Presence::OnlySecond
        } else {
            Presence::Neither
        }
    }

    /// One scheduling tick of the coordinator, the disconnect check first.
    ///
    /// With both players present the machine steps once: `Begin` hands each
    /// player a preamble naming the other as opponent (the first seat plays
    /// crosses and moves first), `TurnStart` tells the current player to move
    /// and the other to wait, `TurnWait` consumes at most one inbound message
    /// from the current player — applying a valid move to the board and
    /// broadcasting it, rejecting an occupied or out-of-range cell or a
    /// non-move message back to the sender — and `End` broadcasts the
    /// outcome and releases both players. With one player missing the
    /// survivor is told the match ended by disconnect and is released; with
    /// both missing the coordinator just stops.
    pub fn tick(&self, state: &mut ServerState, presence: Presence, inbound: Option<Message>) -> (r:
        TickResult)
        requires
            old(state).board.wf(),
            old(state).seats_wf(),
        ensures
            final(state).board.wf(),
            final(state).seats_wf(),
            final(state).board.size == old(state).board.size,
            final(state).crosses_player == old(state).crosses_player,
            final(state).noughts_player == old(state).noughts_player,
            presence == Presence::Neither ==> {
                &&& r.to_player1@ == Seq::<Message>::empty()
                &&& r.to_player2@ == Seq::<Message>::empty()
                &&& !r.release_player1 && !r.release_player2
                &&& r.finished
                &&& *final(state) == *old(state)
            },
            presence == Presence::OnlyFirst ==> {
                &&& r.to_player1@ == seq![Message::GameOver(End::Disconnect)]
                &&& r.to_player2@ == Seq::<Message>::empty()
                &&& r.release_player1 && !r.release_player2
                &&& r.finished
                &&& *final(state) == *old(state)
            },
            presence == Presence::OnlySecond ==> {
                &&& r.to_player1@ == Seq::<Message>::empty()
                &&& r.to_player2@ == seq![Message::GameOver(End::Disconnect)]
                &&& !r.release_player1 && r.release_player2
                &&& r.finished
                &&& *final(state) == *old(state)
            },
            presence == Presence::Both && old(state).turn == Turn::Begin ==> {
                let cs = old(state).crosses_player as int;
                let ns = old(state).noughts_player as int;
                &&& sent_to(r, cs).len() == 1
                &&& is_preamble_for(
                    sent_to(r, cs)[0],
                    addr_of(*self, ns),
                    Piece::Cross,
                    old(state).board.size,
                )
                &&& sent_to(r, ns).len() == 1
                &&& is_preamble_for(
                    sent_to(r, ns)[0],
                    addr_of(*self, cs),
                    Piece::Nought,
                    old(state).board.size,
                )
                &&& final(state).turn == Turn::TurnStart
                &&& final(state).board == old(state).board
                &&& final(state).current_player == old(state).current_player
                &&& final(state).winner == old(state).winner
                &&& !r.release_player1 && !r.release_player2 && !r.finished
            },
            presence == Presence::Both && old(state).turn == Turn::TurnStart ==> {
                &&& sent_to(r, old(state).spec_current_seat()) == seq![Message::YourTurn]
                &&& sent_to(r, old(state).spec_other_seat()) == seq![Message::WaitTurn]
                &&& final(state).turn == Turn::TurnWait
                &&& final(state).board == old(state).board
                &&& final(state).current_player == old(state).current_player
                &&& final(state).winner == old(state).winner
                &&& !r.release_player1 && !r.release_player2 && !r.finished
            },
            presence == Presence::Both && old(state).turn == Turn::TurnWait ==> (match inbound {
                Option::None => {
                    &&& r.to_player1@ == Seq::<Message>::empty()
                    &&& r.to_player2@ == Seq::<Message>::empty()
                    &&& !r.release_player1 && !r.release_player2 && !r.finished
                    &&& *final(state) == *old(state)
                },
                Option::Some(m) => match m {
                    Message::Move(t) => {
                        let x = t.1;
                        let y = t.2;
                        let size = old(state).board.size;
                        let g = old(state).board@;
                        let p = old(state).current_player;
                        if x < size && y < size && g[y as int][x as int] == Piece::Empty {
                            let g2 = g.update(y as int, g[y as int].update(x as int, p));
                            &&& r.to_player1@ == seq![Message::Move((p, x, y))]
                            &&& r.to_player2@ == seq![Message::Move((p, x, y))]
                            &&& final(state).board@ == g2
                            &&& (match outcome_of(g2, size as nat, p) {
                                Option::Some(end) => {
                                    &&& final(state).winner == end
                                    &&& final(state).turn == Turn::End
                                    &&& final(state).current_player == p
                                },
                                Option::None => {
                                    &&& final(state).turn == Turn::TurnStart
                                    &&& final(state).winner == old(state).winner
                                    &&& final(state).current_player == (if p == Piece::Cross {
                                        Piece::Nought
                                    } else {
                                        Piece::Cross
                                    })
                                },
                            })
                            &&& !r.release_player1 && !r.release_player2 && !r.finished
                        } else if x < size && y < size {
                            &&& sent_to(r, old(state).spec_current_seat()).len() == 1
                            &&& is_invalid_move(
                                sent_to(r, old(state).spec_current_seat())[0],
                                occupied_msg(g[y as int][x as int], x as nat, y as nat),
                            )
                            &&& sent_to(r, old(state).spec_other_seat()) == Seq::<Message>::empty()
                            &&& !r.release_player1 && !r.release_player2 && !r.finished
                            &&& *final(state) == *old(state)
                        } else {
                            &&& sent_to(r, old(state).spec_current_seat()).len() == 1
                            &&& is_invalid_move(
                                sent_to(r, old(state).spec_current_seat())[0],
                                out_of_range_reason(),
                            )
                            &&& sent_to(r, old(state).spec_other_seat()) == Seq::<Message>::empty()
                            &&& !r.release_player1 && !r.release_player2 && !r.finished
                            &&& *final(state) == *old(state)
                        }
                    },
                    _ => {
                        &&& sent_to(r, old(state).spec_current_seat()).len() == 1
                        &&& is_invalid_move(
                            sent_to(r, old(state).spec_current_seat())[0],
                            wrong_message_reason(),
                        )
                        &&& sent_to(r, old(state).spec_other_seat()) == Seq::<Message>::empty()
                        &&& !r.release_player1 && !r.release_player2 && !r.finished
                        &&& *final(state) == *old(state)
                    },
                },
            }),
            presence == Presence::Both && old(state).turn == Turn::End ==> {
                &&& r.to_player1@ == seq![Message::GameOver(old(state).winner)]
                &&& r.to_player2@ == seq![Message::GameOver(old(state).winner)]
                &&& r.release_player1 && r.release_player2 && r.finished
                &&& *final(state) == *old(state)
            },
    {
        let mut to_player1: Vec<Message> = Vec::new();
        let mut to_player2: Vec<Message> = Vec::new();
        let mut release_player1 = false;
        let mut release_player2 = false;
        let mut finished = false;

        match presence {
            Presence::Neither => {
                finished = true;
            },
            Presence::OnlyFirst => {
                to_player1.push(Message::GameOver(End::Disconnect));
                release_player1 = true;
                finished = true;
            },
            Presence::OnlySecond => {
                to_player2.push(Message::GameOver(End::Disconnect));
                release_player2 = true;
                finished = true;
            },
            Presence::Both => {
                match state.turn {
                    Turn::Begin => {
                        let size = state.board.size;
                        let cross_addr = if state.crosses_player == 0 {
                            self.player1.clone()
                        } else {
                            self.player2.clone()
                        };
                        let nought_addr = if state.noughts_player == 0 {
                            self.player1.clone()
                        } else {
                            self.player2.clone()
                        };
                        let config_cross = ClientState::new(nought_addr, Piece::Cross, size);
                        let config_nought = ClientState::new(cross_addr, Piece::Nought, size);
                        if state.crosses_player == 0 {
                            to_player1.push(Message::Preamble(config_cross));
                            to_player2.push(Message::Preamble(config_nought));
                        } else {
                            to_player2.push(Message::Preamble(config_cross));
                            to_player1.push(Message::Preamble(config_nought));
                        }
                        state.turn = Turn::TurnStart;
                    },
                    Turn::TurnStart => {
                        if state.current_seat() == 0 {
                            to_player1.push(Message::YourTurn);
                            to_player2.push(Message::WaitTurn);
                        } else {
                            to_player2.push(Message::YourTurn);
                            to_player1.push(Message::WaitTurn);
                        }
                        state.turn = Turn::TurnWait;
                    },
                    Turn::TurnWait => {
                        let cur = state.current_seat();
                        match inbound {
                            Some(Message::Move((_, x, y))) => {
                                if x < state.board.size && y < state.board.size {
                                    let p = state.current_player;
                                    match state.board.try_place(p, x, y) {
                                        Ok(_) => {
                                            to_player1.push(Message::Move((p, x, y)));
                                            to_player2.push(Message::Move((p, x, y)));
                                            match state.board.check_victory(p) {
                                                Some(end) => {
                                                    state.winner = end;
                                                    state.turn = Turn::End;
                                                },
                                                None => {
                                                    state.turn = Turn::TurnStart;
                                                    state.current_player = p.next();
                                                },
                                            }
                                        },
                                        Err(e) => {
                                            if cur == 0 {
                                                to_player1.push(Message::InvalidMove(e));
                                            } else {
                                                to_player2.push(Message::InvalidMove(e));
                                            }
                                        },
                                    }
                                } else {
                                    let e = String::from_str("move out of range");
                                    if cur == 0 {
                                        to_player1.push(Message::InvalidMove(e));
                                    } else {
                                        to_player2.push(Message::InvalidMove(e));
                                    }
                                }
                            },
                            Some(_) => {
                                let e = String::from_str("wrong message type");
                                if cur == 0 {
                                    to_player1.push(Message::InvalidMove(e));
                                } else {
                                    to_player2.push(Message::InvalidMove(e));
                                }
                            },
                            None => {},
                        }
                    },
                    Turn::End => {
                        to_player1.push(Message::GameOver(state.winner));
                        to_player2.push(Message::GameOver(state.winner));
                        release_player1 = true;
                        release_player2 = true;
                        finished = true;
                    },
                }
            },
        }

        TickResult { to_player1, to_player2, release_player1, release_player2, finished }
    }
}

} // verus!
