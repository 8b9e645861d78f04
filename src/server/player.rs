//! The connection unit: which controller a connection's messages go to,
//! the heartbeat rule, and the reasons a connection is closed for.

use vstd::prelude::*;

verus! {

/// Why the server closes a connection.
#[derive(Clone, Copy, PartialEq, Eq, Structural, Debug)]
pub enum Disconnect {
    ServerMaxLobbies,
    InviteInvalid,
    LobbyJoinError,
    LobbyFull,
    LobbyClosed,
    GameStarted,
    GameEnded,
    LobbyOverloaded,
    ServerOverloaded,
    ShuttingDown,
}

/// The reason code sent to the client.
pub open spec fn reason_text(d: Disconnect) -> Seq<char> {
    match d {
        Disconnect::ServerMaxLobbies => "serverMaxLobbies"@,
        Disconnect::InviteInvalid => "inviteInvalid"@,
        Disconnect::LobbyJoinError => "lobbyJoinError"@,
        Disconnect::LobbyFull => "lobbyFull"@,
        Disconnect::LobbyClosed => "lobbyClosed"@,
        Disconnect::GameStarted => "gameStarted"@,
        Disconnect::GameEnded => "gameEnded"@,
        Disconnect::LobbyOverloaded => "lobbyOverloaded"@,
        Disconnect::ServerOverloaded => "serverOverloaded"@,
        Disconnect::ShuttingDown => "shuttingDown"@,
    }
}

impl Disconnect {
    pub fn as_str(&self) -> (r: &'static str)
        ensures
            r@ == reason_text(*self),
    {
        match self {
            Disconnect::ServerMaxLobbies => "serverMaxLobbies",
            Disconnect::InviteInvalid => "inviteInvalid",
            Disconnect::LobbyJoinError => "lobbyJoinError",
            Disconnect::LobbyFull => "lobbyFull",
            Disconnect::LobbyClosed => "lobbyClosed",
            Disconnect::GameStarted => "gameStarted",
            Disconnect::GameEnded => "gameEnded",
            Disconnect::LobbyOverloaded => "lobbyOverloaded",
            Disconnect::ServerOverloaded => "serverOverloaded",
            Disconnect::ShuttingDown => "shuttingDown",
        }
    }
}

/// The unit that currently owns a connection: its lobby, then its game.
pub enum Controller<L, G> {
    Lobby(L),
    Game(G),
}

/// The kinds of message a client sends.
#[derive(Clone, Copy, PartialEq, Eq, Structural, Debug)]
pub enum Inbound {
    LobbyPickPlayer,
    GamePlayerSelectionVote,
    GameEndTurn,
    GameRestart,
    GameRestartResponse,
    Ping,
}

/// Where a client's message goes.
#[derive(Clone, Copy, PartialEq, Eq, Structural, Debug)]
pub enum Route {
    ToLobby,
    ToGame,
    /// Answered by the connection itself.
    Pong,
    /// No controller of the right kind is attached.
    Drop,
}

/// The state of one client connection.
pub struct Player<L, G> {
    /// When the client was last heard from (milliseconds).
    pub hb: u64,
    pub controller: Option<Controller<L, G>>,
    /// The controller closed the connection, so it is not told of the close.
    pub disconnected_by_controller: bool,
}

pub open spec fn route_for<L, G>(c: Option<Controller<L, G>>, msg: Inbound) -> Route {
    match msg {
        Inbound::Ping => Route::Pong,
        Inbound::LobbyPickPlayer => if c matches Some(Controller::Lobby(_)) {
            Route::ToLobby
        } else {
            Route::Drop
        },
        _ => if c matches Some(Controller::Game(_)) {
            Route::ToGame
        } else {
            Route::Drop
        },
    }
}

/// The heartbeat runs only when both its interval and its timeout are set.
pub fn heartbeat_enabled(interval: u64, timeout: u64) -> (r: bool)
    ensures
        r == (interval != 0 && timeout != 0),
{
    interval != 0 && timeout != 0
}

impl<L, G> Player<L, G> {
    pub fn new(now: u64) -> (p: Player<L, G>)
        ensures
            p.hb == now,
            p.controller is None,
            !p.disconnected_by_controller,
    {
        Player { hb: now, controller: None, disconnected_by_controller: false }
    }

    /// Hands the connection to a new controller.
    pub fn attach(&mut self, controller: Controller<L, G>)
        ensures
            final(self).controller == Some(controller),
            final(self).hb == old(self).hb,
            final(self).disconnected_by_controller == old(self).disconnected_by_controller,
    {
        self.controller = Some(controller);
    }

    /// A message of kind `msg` arrived at `now`: the client is alive, and
    /// the message goes to the controller that handles it, if attached.
    pub fn route(&mut self, msg: Inbound, now: u64) -> (r: Route)
        ensures
            r == route_for(old(self).controller, msg),
            final(self).hb == now,
            final(self).controller == old(self).controller,
            final(self).disconnected_by_controller == old(self).disconnected_by_controller,
    {
        self.hb = now;
        match msg {
            Inbound::Ping => Route::Pong,
            Inbound::LobbyPickPlayer => match &self.controller {
                Some(Controller::Lobby(_)) => Route::ToLobby,
                _ => Route::Drop,
            },
            _ => match &self.controller {
                Some(Controller::Game(_)) => Route::ToGame,
                _ => Route::Drop,
            },
        }
    }

    pub fn lobby(&self) -> (r: Option<&L>)
        ensures
            match self.controller {
                Some(Controller::Lobby(l)) => r == Some(&l),
                _ => r is None,
            },
    {
        match &self.controller {
            Some(Controller::Lobby(l)) => Some(l),
            _ => None,
        }
    }

    pub fn game(&self) -> (r: Option<&G>)
        ensures
            match self.controller {
                Some(Controller::Game(g)) => r == Some(&g),
                _ => r is None,
            },
    {
        match &self.controller {
            Some(Controller::Game(g)) => Some(g),
            _ => None,
        }
    }

    /// No sign of life for longer than `timeout` by `now`.
    pub fn heartbeat_expired(&self, now: u64, timeout: u64) -> (r: bool)
        ensures
            r == (now > self.hb && now - self.hb > timeout),
    {
        now > self.hb && now - self.hb > timeout
    }

    /// The controller closes the connection.
    pub fn disconnect(&mut self)
        ensures
            final(self).disconnected_by_controller,
            final(self).hb == old(self).hb,
            final(self).controller == old(self).controller,
    {
        self.disconnected_by_controller = true;
    }

    /// The controller to tell that the connection closed: none when the
    /// controller closed it.
    pub fn notify_on_stop(&self) -> (r: Option<&Controller<L, G>>)
        ensures
            self.disconnected_by_controller ==> r is None,
            !self.disconnected_by_controller ==> match self.controller {
                Some(c) => r == Some(&c),
                None => r is None,
            },
    {
        if self.disconnected_by_controller {
            return None;
        }
        match &self.controller {
            Some(c) => Some(c),
            None => None,
        }
    }
}

} // verus!
