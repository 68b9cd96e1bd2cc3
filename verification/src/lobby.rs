//! The lobby: the registry of connected players, the liveness sweep that
//! drops connections whose transport worker terminated, and the pairing sweep
//! that picks the first two waiting players for a match.
//!
//! The surrounding program owns the lock, the channels and the worker
//! threads; it calls into this module with the lock held and acts on what
//! comes back.
use vstd::prelude::*;

verus! {

/// Whether a registered player is free for pairing or currently in a match.
#[derive(Clone, Copy, PartialEq, Eq, Structural, Debug)]
pub enum Status {
    Waiting,
    Playing,
}

/// The lobby's record of one connection: the connection's identity, its
/// pairing status, and whether its transport worker has terminated. The
/// worker itself, and the message channels, stay with the surrounding
/// program.
pub struct Player {
    pub addr: String,
    pub status: Status,
    pub finished: bool,
}

impl Player {
    /// A freshly registered connection: waiting for a match, worker running.
    pub fn new(addr: String) -> (p: Self)
        ensures
            p.addr == addr,
            p.status == Status::Waiting,
            !p.finished,
    {
        Player { addr, status: Status::Waiting, finished: false }
    }
}

/// The index of the first player at or after `i` who is waiting for a match,
/// or the registry's length if there is none.
pub open spec fn first_waiting_from(ps: Seq<Player>, i: int) -> int
    decreases ps.len() - i when 0 <= i <= ps.len()
{
    if i >= ps.len() {
        ps.len() as int
    } else if ps[i].status == Status::Waiting {
        i
    } else {
        first_waiting_from(ps, i + 1)
    }
}

/// Some player of `ps` has the address `a`.
pub open spec fn contains_addr(ps: Seq<Player>, a: Seq<char>) -> bool {
    exists|i: int| 0 <= i < ps.len() && ps[i].addr@ == a
}

/// The registry of connected players, in order of registration.
pub struct Lobby {
    pub players: Vec<Player>,
}

impl Lobby {
    /// An empty registry.
    pub fn new() -> (l: Self)
        ensures
            l.players@ == Seq::<Player>::empty(),
    {
        Lobby { players: Vec::new() }
    }

    /// Register one connection at the end of the registry.
    pub fn add_connection(&mut self, new: Player)
        ensures
            final(self).players@ == old(self).players@.push(new),
    {
        self.players.push(new);
    }

    /// One pairing sweep: the first two waiting players, in registry order,
    /// both flip to `Playing` and their addresses are returned for a new
    /// session. With fewer than two waiting players the registry is left
    /// unchanged.
    pub fn find_pair(&mut self) -> (r: Option<(String, String)>)
        ensures
            ({
                let ps = old(self).players@;
                let i = first_waiting_from(ps, 0);
                if i < ps.len() && first_waiting_from(ps, i + 1) < ps.len() {
                    let j = first_waiting_from(ps, i + 1);
                    &&& r matches Some((a, b)) && a == ps[i].addr && b == ps[j].addr
                    &&& final(self).players@ == ps.update(
                        i,
                        (Player { status: Status::Playing, ..ps[i] }),
                    ).update(j, (Player { status: Status::Playing, ..ps[j] }))
                } else {
                    &&& r is None
                    &&& *final(self) == *old(self)
                }
            }),
    {
        let ghost ps = self.players@;
        let n = self.players.len();

        // find the first waiting player
        let mut i: usize = 0;
        while i < n && self.players[i].status != Status::Waiting
            invariant
                n == self.players@.len(),
                ps == self.players@,
                0 <= i <= n,
                first_waiting_from(ps, 0) == first_waiting_from(ps, i as int),
            decreases n - i,
        {
            i += 1;
        }
        proof {
            assert(first_waiting_from(ps, 0) == i as int);
        }
        if i >= n {
            return None;
        }

        // find the second waiting player
        let mut j: usize = i + 1;
        while j < n && self.players[j].status != Status::Waiting
            invariant
                n == self.players@.len(),
                ps == self.players@,
                i < n,
                i + 1 <= j <= n,
                first_waiting_from(ps, i + 1) == first_waiting_from(ps, j as int),
            decreases n - j,
        {
            j += 1;
        }
        proof {
            assert(first_waiting_from(ps, i + 1) == j as int);
        }
        if j >= n {
            return None;
        }

        let addr_i = self.players[i].addr.clone();
        let fin_i = self.players[i].finished;
        self.players[i] = Player { addr: addr_i.clone(), status: Status::Playing, finished: fin_i };
        let addr_j = self.players[j].addr.clone();
        let fin_j = self.players[j].finished;
        self.players[j] = Player { addr: addr_j.clone(), status: Status::Playing, finished: fin_j };
        Some((addr_i, addr_j))
    }

    /// One liveness sweep: drop every player whose transport worker has
    /// terminated, keeping the rest in registry order.
    pub fn reap_finished(&mut self)
        ensures
            final(self).players@ == old(self).players@.filter(|p: Player| !p.finished),
    {
        let ghost ps = self.players@;
        let n = self.players.len();
        let mut kept: Vec<Player> = Vec::new();
        let mut i: usize = 0;
        while i < n
            invariant
                n == ps.len(),
                ps == self.players@,
                0 <= i <= n,
                kept@ == ps.subrange(0, i as int).filter(|p: Player| !p.finished),
            decreases n - i,
        {
            let ghost prefix = ps.subrange(0, i as int);
            let p = self.players[i].clone_player();
            proof {
                reveal(Seq::filter);
                assert(ps.subrange(0, i as int + 1).drop_last() =~= prefix);
                assert(ps.subrange(0, i as int + 1).last() == ps[i as int]);
            }
            if !p.finished {
                kept.push(p);
            }
            i += 1;
        }
        proof {
            assert(ps.subrange(0, n as int) =~= ps);
        }
        self.players = kept;
    }

    /// Whether a player with the given address is still registered. A player
    /// whose worker finished but who has not been reaped yet still counts.
    pub fn is_present(&self, addr: &String) -> (r: bool)
        ensures
            r == contains_addr(self.players@, addr@),
    {
        let n = self.players.len();
        let mut i: usize = 0;
        while i < n
            invariant
                n == self.players@.len(),
                0 <= i <= n,
                forall|k: int| 0 <= k < i ==> self.players@[k].addr@ != addr@,
            decreases n - i,
        {
            if self.players[i].addr.eq(addr) {
                return true;
            }
            i += 1;
        }
        false
    }

    /// Set every player with the given address back to `Waiting`, leaving all
    /// other players untouched.
    pub fn set_waiting(&mut self, addr: &String)
        ensures
            final(self).players@.len() == old(self).players@.len(),
            forall|k: int|
                0 <= k < old(self).players@.len() ==> #[trigger] final(self).players@[k] == (if old(
                    self,
                ).players@[k].addr@ == addr@ {
                    (Player { status: Status::Waiting, ..old(self).players@[k] })
                } else {
                    old(self).players@[k]
                }),
    {
        let ghost ps0 = self.players@;
        let n = self.players.len();
        let mut i: usize = 0;
        while i < n
            invariant
                n == self.players@.len(),
                n == ps0.len(),
                0 <= i <= n,
                forall|k: int| i <= k < n ==> #[trigger] self.players@[k] == ps0[k],
                forall|k: int|
                    0 <= k < i ==> #[trigger] self.players@[k] == (if ps0[k].addr@ == addr@ {
                        (Player { status: Status::Waiting, ..ps0[k] })
                    } else {
                        ps0[k]
                    }),
            decreases n - i,
        {
            if self.players[i].addr.eq(addr) {
                let a = self.players[i].addr.clone();
                let fin = self.players[i].finished;
                self.players[i] = Player { addr: a, status: Status::Waiting, finished: fin };
            }
            i += 1;
        }
    }
}

impl Player {
    /// A field-for-field copy of the record.
    pub fn clone_player(&self) -> (p: Self)
        ensures
            p == *self,
    {
        Player { addr: self.addr.clone(), status: self.status, finished: self.finished }
    }
}

} // verus!
