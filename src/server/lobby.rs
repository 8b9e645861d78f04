//! A lobby: the host waits while candidates join under one-byte codes, and
//! picks one of them to play against.

use vstd::prelude::*;
use vstd::set_lib::{lemma_int_range, lemma_len_subset, set_int_range};

use crate::game::{other_spec, Player};
use crate::server::game::seat;
use crate::server::player::Disconnect;

verus! {

/// The candidate list is sent to the host at most once per this window
/// (milliseconds).
pub const PLAYER_LIST_SYNC_DEBOUNCE: u64 = 1000;

/// Random draws of a join code before the lowest free code is taken.
const CODE_DRAWS: usize = 16;

/// A connection waiting in a lobby, with its join code.
pub struct Candidate<H> {
    pub code: u8,
    /// Identifies the connection.
    pub key: u64,
    /// Reaches the connection.
    pub conn: H,
}

/// Who sits in a seat of a game picked in a lobby.
pub enum Seated<H> {
    Host,
    Candidate(Candidate<H>),
}

/// What stopping a lobby tells whom.
pub struct Closing<H> {
    /// Why the host is disconnected, if it is.
    pub host: Option<Disconnect>,
    /// Why the candidates are disconnected.
    pub reason: Disconnect,
    pub candidates: Vec<Candidate<H>>,
    /// A sending of the list was scheduled and is called off.
    pub cancel_sync: bool,
}

/// When the candidate list goes to the host.
#[derive(Clone, Copy, PartialEq, Eq, Structural, Debug)]
pub enum SyncStep {
    /// Send it now.
    Now,
    /// Call `sync_player_list` after this many milliseconds.
    Later(u64),
    /// A sending is already scheduled.
    Pending,
}

/// What a departure does to the lobby.
#[derive(Clone, Copy, PartialEq, Eq, Structural, Debug)]
pub enum Departure {
    /// The game has started: the lobby no longer cares.
    Ignored,
    /// The host left: the lobby closes.
    Close,
    /// A candidate left.
    Left(SyncStep),
}

pub struct Lobby<H> {
    /// Identifies the host's connection.
    pub host: u64,
    pub players: Vec<Candidate<H>>,
    /// Most candidates at a time.
    pub max_players: usize,
    /// When the candidate list was last sent (milliseconds).
    pub last_sync: u64,
    /// A sending of the list is scheduled.
    pub sync_pending: bool,
    /// A candidate was picked and the game started.
    pub game_started: bool,
}

pub open spec fn codes_of<H>(players: Seq<Candidate<H>>) -> Seq<int> {
    players.map_values(|c: Candidate<H>| c.code as int)
}

pub open spec fn keys_of<H>(players: Seq<Candidate<H>>) -> Seq<u64> {
    players.map_values(|c: Candidate<H>| c.key)
}

/// Some value in `0..n` is missing from `vals` when `vals` is shorter.
pub proof fn lemma_free_value(vals: Seq<int>, n: int)
    requires
        vals.len() < n,
    ensures
        exists|c: int| 0 <= c < n && !vals.contains(c),
{
    if forall|c: int| 0 <= c < n ==> vals.contains(c) {
        lemma_int_range(0, n);
        vals.lemma_cardinality_of_set();
        assert(set_int_range(0, n).subset_of(vals.to_set()));
        lemma_len_subset(set_int_range(0, n), vals.to_set());
    }
}

/// The sending of the list that a change at `now` calls for.
pub open spec fn sync_step(pending: bool, last_sync: u64, now: u64) -> SyncStep {
    if pending {
        SyncStep::Pending
    } else if now < last_sync + PLAYER_LIST_SYNC_DEBOUNCE {
        SyncStep::Later(PLAYER_LIST_SYNC_DEBOUNCE)
    } else {
        SyncStep::Now
    }
}

impl<H> Lobby<H> {
    /// Codes and keys are unique, and the host is no candidate.
    pub open spec fn wf(&self) -> bool {
        &&& codes_of(self.players@).no_duplicates()
        &&& keys_of(self.players@).no_duplicates()
        &&& !keys_of(self.players@).contains(self.host)
    }

    /// No candidate can join: the lobby holds its maximum, or every code is
    /// taken.
    pub open spec fn full(&self) -> bool {
        self.players@.len() >= self.max_players || self.players@.len() >= 256
    }

    /// How the sending state moves on a change at `now`.
    pub open spec fn synced(&self, now: u64, step: SyncStep, s2: Self) -> bool {
        &&& step == sync_step(self.sync_pending, self.last_sync, now)
        &&& s2.sync_pending == (step != SyncStep::Now)
        &&& s2.last_sync == if step == SyncStep::Now {
            now
        } else {
            self.last_sync
        }
    }

    pub fn new(host: u64, max_players: usize, now: u64) -> (l: Lobby<H>)
        ensures
            l.wf(),
            l.host == host,
            l.players@.len() == 0,
            l.max_players == max_players,
            l.last_sync == now,
            !l.sync_pending,
            !l.game_started,
    {
        let l = Lobby { host, players: Vec::new(), max_players, last_sync: now, sync_pending: false, game_started: false };
        proof {
            assert(codes_of(l.players@) =~= Seq::<int>::empty());
            assert(keys_of(l.players@) =~= Seq::<u64>::empty());
        }
        l
    }

    fn has_code(&self, code: u8) -> (r: bool)
        ensures
            r == codes_of(self.players@).contains(code as int),
    {
        let mut i: usize = 0;
        while i < self.players.len()
            invariant
                i <= self.players@.len(),
                forall|j: int| 0 <= j < i ==> self.players@[j].code != code,
            decreases self.players@.len() - i,
        {
            if self.players[i].code == code {
                proof {
                    assert(codes_of(self.players@)[i as int] == code as int);
                }
                return true;
            }
            i = i + 1;
        }
        proof {
            if codes_of(self.players@).contains(code as int) {
                let j = choose|j: int| 0 <= j < codes_of(self.players@).len() && codes_of(self.players@)[j] == code as int;
                assert(self.players@[j].code == code);
            }
        }
        false
    }

    /// Position of the candidate with connection `key`, if any.
    fn position_of_key(&self, key: u64) -> (r: Option<usize>)
        ensures
            r matches Some(i) ==> i < self.players@.len() && self.players@[i as int].key == key,
            r is None ==> !keys_of(self.players@).contains(key),
    {
        let mut i: usize = 0;
        while i < self.players.len()
            invariant
                i <= self.players@.len(),
                forall|j: int| 0 <= j < i ==> self.players@[j].key != key,
            decreases self.players@.len() - i,
        {
            if self.players[i].key == key {
                return Some(i);
            }
            i = i + 1;
        }
        proof {
            if keys_of(self.players@).contains(key) {
                let j = choose|j: int| 0 <= j < keys_of(self.players@).len() && keys_of(self.players@)[j] == key;
                assert(self.players@[j].key == key);
            }
        }
        None
    }

    /// Position of the candidate with join code `code`, if any.
    fn position_of_code(&self, code: u8) -> (r: Option<usize>)
        ensures
            r matches Some(i) ==> i < self.players@.len() && self.players@[i as int].code == code,
            r is None ==> !codes_of(self.players@).contains(code as int),
    {
        let mut i: usize = 0;
        while i < self.players.len()
            invariant
                i <= self.players@.len(),
                forall|j: int| 0 <= j < i ==> self.players@[j].code != code,
            decreases self.players@.len() - i,
        {
            if self.players[i].code == code {
                return Some(i);
            }
            i = i + 1;
        }
        proof {
            if codes_of(self.players@).contains(code as int) {
                let j = choose|j: int| 0 <= j < codes_of(self.players@).len() && codes_of(self.players@)[j] == code as int;
                assert(self.players@[j].code == code);
            }
        }
        None
    }

    /// A join code no candidate holds, or `None` when the lobby is full.
    /// Codes are drawn at random; after a run of collisions the lowest free
    /// code is taken.
    pub fn get_id(&self) -> (r: Option<u8>)
        ensures
            r is None <==> self.full(),
            r matches Some(c) ==> !codes_of(self.players@).contains(c as int),
    {
        if self.players.len() >= self.max_players || self.players.len() >= 256 {
            return None;
        }
        let mut tries: usize = 0;
        while tries < CODE_DRAWS
            invariant
                self.players@.len() < 256,
                self.players@.len() < self.max_players,
            decreases CODE_DRAWS - tries,
        {
            let code: u8 = rand::random::<u8>();
            if !self.has_code(code) {
                return Some(code);
            }
            tries = tries + 1;
        }
        let mut code: u16 = 0;
        while code < 256
            invariant
                self.players@.len() < 256,
                self.players@.len() < self.max_players,
                code <= 256,
                forall|c: int| 0 <= c < code ==> codes_of(self.players@).contains(c),
            decreases 256 - code,
        {
            if !self.has_code(code as u8) {
                return Some(code as u8);
            }
            code = code + 1;
        }
        proof {
            lemma_free_value(codes_of(self.players@), 256);
        }
        None
    }

    /// Decides when the candidate list goes to the host after a change.
    pub fn schedule_player_list_sync(&mut self, now: u64) -> (step: SyncStep)
        ensures
            old(self).synced(now, step, *final(self)),
            final(self).host == old(self).host,
            final(self).players == old(self).players,
            final(self).max_players == old(self).max_players,
            final(self).game_started == old(self).game_started,
    {
        if self.sync_pending {
            return SyncStep::Pending;
        }
        if now < self.last_sync || now - self.last_sync < PLAYER_LIST_SYNC_DEBOUNCE {
            self.sync_pending = true;
            SyncStep::Later(PLAYER_LIST_SYNC_DEBOUNCE)
        } else {
            self.last_sync = now;
            SyncStep::Now
        }
    }

    /// The list is sent to the host at `now`: returns the codes to send.
    pub fn sync_player_list(&mut self, now: u64) -> (codes: Vec<u8>)
        ensures
            codes@.map_values(|c: u8| c as int) == codes_of(old(self).players@),
            final(self).last_sync == now,
            !final(self).sync_pending,
            final(self).host == old(self).host,
            final(self).players == old(self).players,
            final(self).max_players == old(self).max_players,
            final(self).game_started == old(self).game_started,
    {
        let mut codes: Vec<u8> = Vec::new();
        let mut i: usize = 0;
        while i < self.players.len()
            invariant
                i <= self.players@.len(),
                codes@.len() == i,
                forall|j: int| 0 <= j < i ==> codes@[j] == self.players@[j].code,
            decreases self.players@.len() - i,
        {
            codes.push(self.players[i].code);
            i = i + 1;
        }
        self.last_sync = now;
        self.sync_pending = false;
        proof {
            assert(codes@.map_values(|c: u8| c as int) =~= codes_of(self.players@));
        }
        codes
    }

    /// The connection `key`, reached through `conn`, asks to join at `now`.
    /// A full lobby answers `LobbyFull` and a connection already in the
    /// lobby `LobbyJoinError`, handing `conn` back and changing nothing;
    /// otherwise the candidate joins under a fresh code.
    pub fn connect(&mut self, key: u64, conn: H, now: u64) -> (r: Result<(u8, SyncStep), (Disconnect, H)>)
        requires
            old(self).wf(),
        ensures
            final(self).wf(),
            old(self).full() ==> r == Err::<(u8, SyncStep), (Disconnect, H)>((Disconnect::LobbyFull, conn)) && *final(self) == *old(self),
            !old(self).full() && (key == old(self).host || keys_of(old(self).players@).contains(key)) ==> r == Err::<(u8, SyncStep), (Disconnect, H)>((Disconnect::LobbyJoinError, conn)) && *final(self) == *old(self),
            !old(self).full() && key != old(self).host && !keys_of(old(self).players@).contains(key) ==> (r matches Ok((code, step)) && {
                &&& !codes_of(old(self).players@).contains(code as int)
                &&& final(self).players@ == old(self).players@.push(Candidate { code, key, conn })
                &&& old(self).synced(now, step, *final(self))
                &&& final(self).host == old(self).host
                &&& final(self).max_players == old(self).max_players
                &&& final(self).game_started == old(self).game_started
            }),
    {
        let code = match self.get_id() {
            Some(c) => c,
            None => {
                return Err((Disconnect::LobbyFull, conn));
            },
        };
        if key == self.host {
            return Err((Disconnect::LobbyJoinError, conn));
        }
        if let Some(i) = self.position_of_key(key) {
            proof {
                assert(keys_of(self.players@)[i as int] == key);
            }
            return Err((Disconnect::LobbyJoinError, conn));
        }
        let ghost p0 = self.players@;
        self.players.push(Candidate { code, key, conn });
        proof {
            assert(codes_of(self.players@) =~= codes_of(p0).push(code as int));
            assert(keys_of(self.players@) =~= keys_of(p0).push(key));
        }
        let step = self.schedule_player_list_sync(now);
        Ok((code, step))
    }
    /// The connection `key` went away at `now`. After the game started this
    /// changes nothing; the host leaving closes the lobby; a candidate
    /// leaving frees its code.
    pub fn disconnected(&mut self, key: u64, now: u64) -> (d: Departure)
        requires
            old(self).wf(),
        ensures
            final(self).wf(),
            old(self).game_started ==> d == Departure::Ignored && *final(self) == *old(self),
            !old(self).game_started && key == old(self).host ==> d == Departure::Close && *final(self) == *old(self),
            !old(self).game_started && key != old(self).host ==> (d matches Departure::Left(step) && {
                &&& old(self).synced(now, step, *final(self))
                &&& final(self).host == old(self).host
                &&& final(self).max_players == old(self).max_players
                &&& final(self).game_started == old(self).game_started
                &&& !keys_of(final(self).players@).contains(key)
                &&& if keys_of(old(self).players@).contains(key) {
                    exists|i: int| 0 <= i < old(self).players@.len() && old(self).players@[i].key == key
                        && final(self).players@ == old(self).players@.remove(i)
                } else {
                    final(self).players@ == old(self).players@
                }
            }),
    {
        if self.game_started {
            return Departure::Ignored;
        }
        if key == self.host {
            return Departure::Close;
        }
        if let Some(i) = self.position_of_key(key) {
            let ghost p0 = self.players@;
            let _gone = self.players.remove(i);
            proof {
                assert(codes_of(self.players@) =~= codes_of(p0).remove(i as int));
                assert(keys_of(self.players@) =~= keys_of(p0).remove(i as int));
                assert(keys_of(p0)[i as int] == key);
                if keys_of(self.players@).contains(key) {
                    let j = choose|j: int| 0 <= j < keys_of(self.players@).len() && keys_of(self.players@)[j] == key;
                    if j < i {
                        assert(keys_of(p0)[j] == key);
                    } else {
                        assert(keys_of(p0)[j + 1] == key);
                    }
                }
            }
        }
        let step = self.schedule_player_list_sync(now);
        Departure::Left(step)
    }

    /// The host picks the candidate with join code `code` to play as
    /// `role`, the host taking the other seat: the candidate leaves the
    /// lobby, which now holds a started game. Returns both seats, `P1`'s
    /// first. `None` when no candidate has that code; nothing changes then.
    pub fn pick_player(&mut self, code: u8, role: Player) -> (r: Option<[Seated<H>; 2]>)
        requires
            old(self).wf(),
        ensures
            final(self).wf(),
            !codes_of(old(self).players@).contains(code as int) ==> r is None && *final(self) == *old(self),
            codes_of(old(self).players@).contains(code as int) ==> (r matches Some(seats) && exists|i: int|
                0 <= i < old(self).players@.len() && old(self).players@[i].code == code
                    && seats[seat(role)] == Seated::Candidate(old(self).players@[i])
                    && seats[seat(other_spec(role))] == Seated::<H>::Host
                    && final(self).players@ == old(self).players@.remove(i) && final(self).game_started
                    && final(self).host == old(self).host && final(self).sync_pending == old(self).sync_pending
                    && final(self).max_players == old(self).max_players),
    {
        let i = match self.position_of_code(code) {
            Some(i) => i,
            None => {
                return None;
            },
        };
        let ghost p0 = self.players@;
        let c = self.players.remove(i);
        self.game_started = true;
        proof {
            assert(codes_of(p0)[i as int] == code as int);
            assert(codes_of(self.players@) =~= codes_of(p0).remove(i as int));
            assert(keys_of(self.players@) =~= keys_of(p0).remove(i as int));
            if keys_of(self.players@).contains(self.host) {
                let j = choose|j: int| 0 <= j < keys_of(self.players@).len() && keys_of(self.players@)[j] == self.host;
                if j < i {
                    assert(keys_of(p0)[j] == self.host);
                } else {
                    assert(keys_of(p0)[j + 1] == self.host);
                }
            }
        }
        match role {
            Player::P1 => Some([Seated::Candidate(c), Seated::Host]),
            Player::P2 => Some([Seated::Host, Seated::Candidate(c)]),
        }
    }

    /// The lobby stops. The host is told the lobby closed unless a game
    /// started; every candidate still waiting is handed out with the reason
    /// it is disconnected for: the game started, or the lobby closed; a
    /// scheduled sending of the list is called off.
    pub fn close(&mut self) -> (r: Closing<H>)
        ensures
            r.host == if old(self).game_started {
                None
            } else {
                Some(Disconnect::LobbyClosed)
            },
            r.reason == if old(self).game_started {
                Disconnect::GameStarted
            } else {
                Disconnect::LobbyClosed
            },
            r.candidates@ == old(self).players@,
            r.cancel_sync == old(self).sync_pending,
            final(self).players@.len() == 0,
            !final(self).sync_pending,
            final(self).host == old(self).host,
            final(self).game_started == old(self).game_started,
    {
        let (host, reason) = if self.game_started {
            (None, Disconnect::GameStarted)
        } else {
            (Some(Disconnect::LobbyClosed), Disconnect::LobbyClosed)
        };
        let cancel_sync = self.sync_pending;
        self.sync_pending = false;
        let mut candidates: Vec<Candidate<H>> = Vec::new();
        std::mem::swap(&mut self.players, &mut candidates);
        Closing { host, reason, candidates, cancel_sync }
    }
}

} // verus!
