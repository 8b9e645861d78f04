//! The lobby registry: lobbies by identifier, under a capacity bound, and
//! the routing of a new connection to a new or an existing lobby.

use vstd::prelude::*;
use vstd::string::StrSliceExecFns;

use crate::server::lobby::lemma_free_value;
use crate::server::player::Disconnect;

verus! {

/// Random draws of a lobby identifier before the lowest free one is taken.
const ID_DRAWS: usize = 16;

/// Relies on `uuid::Uuid::new_v4` and `Uuid::as_u128`: a random version-4
/// identifier, as a number. Nothing is promised of its value.
#[verifier::external_body]
fn random_lobby_id() -> (id: u128) {
    uuid::Uuid::new_v4().as_u128()
}

/// The identifier that `uuid::Uuid::parse_str` reads from a text, if it
/// reads one.
pub uninterp spec fn uuid_from_text(s: Seq<char>) -> Option<u128>;

/// Relies on `uuid::Uuid::parse_str` and `Uuid::as_u128`: the identifier a
/// text spells, in any of the forms the crate reads, if it spells one.
#[verifier::external_body]
fn parse_lobby_id(s: &str) -> (r: Option<u128>)
    ensures
        r == uuid_from_text(s@),
{
    match uuid::Uuid::parse_str(s) {
        Ok(id) => Some(id.as_u128()),
        Err(_) => None,
    }
}

/// What a new connection asks of the registry.
#[derive(Clone, Copy, PartialEq, Eq, Structural, Debug)]
pub enum Entry {
    /// The protocol version is missing or unsupported.
    BadRequest,
    /// Host a new lobby.
    Create,
    /// Join the lobby with this identifier.
    Join(u128),
    /// The invite names no lobby.
    Invalid,
}

/// How handing a message to a lobby went.
#[derive(Clone, Copy, PartialEq, Eq, Structural, Debug)]
pub enum Delivery {
    Delivered,
    /// The lobby's mailbox is full.
    Full,
    /// The lobby has stopped.
    Closed,
}

/// How asking the registry went.
#[derive(Clone, Copy, PartialEq, Eq, Structural, Debug)]
pub enum RouterReply {
    Done,
    /// The registry has stopped.
    Closed,
    /// The registry did not answer in time.
    Timeout,
}

pub open spec fn entry_for(version_ok: bool, lobby: Option<Option<u128>>) -> Entry {
    if !version_ok {
        Entry::BadRequest
    } else {
        match lobby {
            None => Entry::Create,
            Some(None) => Entry::Invalid,
            Some(Some(id)) => Entry::Join(id),
        }
    }
}

/// The entry for a connection whose lobby parameter, if given, reads as
/// `lobby`.
pub fn entry_from_parsed(version_ok: bool, lobby: Option<Option<u128>>) -> (e: Entry)
    ensures
        e == entry_for(version_ok, lobby),
{
    if !version_ok {
        return Entry::BadRequest;
    }
    match lobby {
        None => Entry::Create,
        Some(None) => Entry::Invalid,
        Some(Some(id)) => Entry::Join(id),
    }
}

/// The one protocol version served.
pub open spec fn supported_version(v: Seq<char>) -> bool {
    v == seq!['1']
}

/// The entry for a connection that gave these query parameters.
pub fn route_request(version: Option<&str>, lobby: Option<&str>) -> (e: Entry)
    ensures
        e == entry_for(
            version matches Some(v) && supported_version(v@),
            match lobby {
                None => None,
                Some(s) => Some(uuid_from_text(s@)),
            },
        ),
{
    let version_ok = match version {
        Some(v) => {
            let ok = v.unicode_len() == 1 && v.get_char(0) == '1';
            proof {
                if ok {
                    assert(v@ =~= seq!['1']);
                }
            }
            ok
        },
        None => false,
    };
    let parsed = match lobby {
        None => None,
        Some(s) => Some(parse_lobby_id(s)),
    };
    entry_from_parsed(version_ok, parsed)
}

/// The reason a joining connection is turned away, if it is, when handing
/// it to its lobby went as `d`.
pub fn join_refusal(d: Delivery) -> (r: Option<Disconnect>)
    ensures
        r == match d {
            Delivery::Delivered => None,
            Delivery::Full => Some(Disconnect::LobbyOverloaded),
            Delivery::Closed => Some(Disconnect::InviteInvalid),
        },
{
    match d {
        Delivery::Delivered => None,
        Delivery::Full => Some(Disconnect::LobbyOverloaded),
        Delivery::Closed => Some(Disconnect::InviteInvalid),
    }
}

/// The reason a new connection is closed, if it is, when asking the
/// registry went as `reply`.
pub fn router_refusal(reply: RouterReply) -> (r: Option<Disconnect>)
    ensures
        r == match reply {
            RouterReply::Done => None,
            RouterReply::Closed => Some(Disconnect::ShuttingDown),
            RouterReply::Timeout => Some(Disconnect::ServerOverloaded),
        },
{
    match reply {
        RouterReply::Done => None,
        RouterReply::Closed => Some(Disconnect::ShuttingDown),
        RouterReply::Timeout => Some(Disconnect::ServerOverloaded),
    }
}

pub struct LobbyRouter<H> {
    /// Each lobby's identifier, with what reaches it.
    pub lobbies: Vec<(u128, H)>,
    /// Most lobbies at a time.
    pub max_lobbies: usize,
}

pub open spec fn ids_of<H>(lobbies: Seq<(u128, H)>) -> Seq<u128> {
    lobbies.map_values(|e: (u128, H)| e.0)
}

impl<H> LobbyRouter<H> {
    /// Identifiers are unique.
    pub open spec fn wf(&self) -> bool {
        ids_of(self.lobbies@).no_duplicates()
    }

    pub open spec fn full(&self) -> bool {
        self.lobbies@.len() >= self.max_lobbies
    }

    pub fn new(max_lobbies: usize) -> (r: LobbyRouter<H>)
        ensures
            r.wf(),
            r.lobbies@.len() == 0,
            r.max_lobbies == max_lobbies,
    {
        let r = LobbyRouter { lobbies: Vec::new(), max_lobbies };
        proof {
            assert(ids_of(r.lobbies@) =~= Seq::<u128>::empty());
        }
        r
    }

    fn position(&self, id: u128) -> (r: Option<usize>)
        ensures
            r matches Some(i) ==> i < self.lobbies@.len() && self.lobbies@[i as int].0 == id,
            r is None ==> !ids_of(self.lobbies@).contains(id),
    {
        let mut i: usize = 0;
        while i < self.lobbies.len()
            invariant
                i <= self.lobbies@.len(),
                forall|j: int| 0 <= j < i ==> self.lobbies@[j].0 != id,
            decreases self.lobbies@.len() - i,
        {
            if self.lobbies[i].0 == id {
                return Some(i);
            }
            i = i + 1;
        }
        proof {
            if ids_of(self.lobbies@).contains(id) {
                let j = choose|j: int| 0 <= j < ids_of(self.lobbies@).len() && ids_of(self.lobbies@)[j] == id;
                assert(self.lobbies@[j].0 == id);
            }
        }
        None
    }

    /// An identifier for a new lobby, or `ServerMaxLobbies` at capacity.
    /// Identifiers are drawn at random; after a run of collisions the
    /// lowest free one is taken.
    pub fn new_lobby_id(&self) -> (r: Result<u128, Disconnect>)
        ensures
            self.full() ==> r == Err::<u128, Disconnect>(Disconnect::ServerMaxLobbies),
            !self.full() ==> (r matches Ok(id) && !ids_of(self.lobbies@).contains(id)),
    {
        if self.lobbies.len() >= self.max_lobbies {
            return Err(Disconnect::ServerMaxLobbies);
        }
        let mut tries: usize = 0;
        while tries < ID_DRAWS
            invariant
                self.lobbies@.len() < self.max_lobbies,
            decreases ID_DRAWS - tries,
        {
            let id = random_lobby_id();
            if self.position(id).is_none() {
                return Ok(id);
            }
            tries = tries + 1;
        }
        let n = self.lobbies.len();
        let mut id: usize = 0;
        while id <= n
            invariant
                n == self.lobbies@.len(),
                n < self.max_lobbies,
                id <= n + 1,
                forall|c: int| 0 <= c < id ==> #[trigger] ids_of(self.lobbies@).contains(c as u128),
            decreases n + 1 - id,
        {
            match self.position(id as u128) {
                None => {
                    return Ok(id as u128);
                },
                Some(i) => {
                    proof {
                        assert(ids_of(self.lobbies@)[i as int] == id as u128);
                    }
                },
            }
            id = id + 1;
        }
        proof {
            let ids = ids_of(self.lobbies@);
            let vals = ids.map_values(|v: u128| v as int);
            lemma_free_value(vals, n + 1);
            let c = choose|c: int| 0 <= c < n + 1 && !vals.contains(c);
            assert(ids.contains(c as u128));
            let j = choose|j: int| 0 <= j < ids.len() && ids[j] == c as u128;
            assert(vals[j] == c);
        }
        Err(Disconnect::ServerMaxLobbies)
    }

    /// Registers the lobby `lobby` under the fresh identifier `id`.
    pub fn insert(&mut self, id: u128, lobby: H)
        requires
            old(self).wf(),
            !ids_of(old(self).lobbies@).contains(id),
        ensures
            final(self).wf(),
            final(self).lobbies@ == old(self).lobbies@.push((id, lobby)),
            final(self).max_lobbies == old(self).max_lobbies,
    {
        let ghost l0 = self.lobbies@;
        self.lobbies.push((id, lobby));
        proof {
            assert(ids_of(self.lobbies@) =~= ids_of(l0).push(id));
        }
    }

    /// The lobby to join under `id`, or `InviteInvalid` when none is.
    pub fn get(&self, id: u128) -> (r: Result<&H, Disconnect>)
        requires
            self.wf(),
        ensures
            !ids_of(self.lobbies@).contains(id) ==> r == Err::<&H, Disconnect>(Disconnect::InviteInvalid),
            ids_of(self.lobbies@).contains(id) ==> (r matches Ok(h) && exists|i: int|
                0 <= i < self.lobbies@.len() && self.lobbies@[i] == (id, *h)),
    {
        match self.position(id) {
            Some(i) => {
                proof {
                    assert(ids_of(self.lobbies@)[i as int] == id);
                }
                Ok(&self.lobbies[i].1)
            },
            None => Err(Disconnect::InviteInvalid),
        }
    }

    /// Forgets the lobby `id`, handing back what reached it; a second
    /// removal finds nothing.
    pub fn remove(&mut self, id: u128) -> (r: Option<H>)
        requires
            old(self).wf(),
        ensures
            final(self).wf(),
            !ids_of(final(self).lobbies@).contains(id),
            !ids_of(old(self).lobbies@).contains(id) ==> r is None && *final(self) == *old(self),
            ids_of(old(self).lobbies@).contains(id) ==> (r matches Some(h) && exists|i: int|
                0 <= i < old(self).lobbies@.len() && old(self).lobbies@[i] == (id, h)
                    && final(self).lobbies@ == old(self).lobbies@.remove(i)),
            final(self).max_lobbies == old(self).max_lobbies,
    {
        match self.position(id) {
            Some(i) => {
                let ghost l0 = self.lobbies@;
                let (_, h) = self.lobbies.remove(i);
                proof {
                    assert(ids_of(self.lobbies@) =~= ids_of(l0).remove(i as int));
                    assert(ids_of(l0)[i as int] == id);
                    if ids_of(self.lobbies@).contains(id) {
                        let j = choose|j: int| 0 <= j < ids_of(self.lobbies@).len() && ids_of(self.lobbies@)[j] == id;
                        if j < i {
                            assert(ids_of(l0)[j] == id);
                        } else {
                            assert(ids_of(l0)[j + 1] == id);
                        }
                    }
                }
                Some(h)
            },
            None => None,
        }
    }

    /// Forgets every lobby, handing back what reached them, for shutdown.
    pub fn drain(&mut self) -> (r: Vec<(u128, H)>)
        ensures
            r@ == old(self).lobbies@,
            final(self).lobbies@.len() == 0,
            final(self).max_lobbies == old(self).max_lobbies,
    {
        let mut rest: Vec<(u128, H)> = Vec::new();
        std::mem::swap(&mut self.lobbies, &mut rest);
        rest
    }
}

} // verus!
