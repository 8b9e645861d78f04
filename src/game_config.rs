//! The rules chosen for a round, in full and as a set of changes.

use vstd::prelude::*;

verus! {

/// A subset of `GameRules` used for starting a new game. Times are in
/// milliseconds.
#[derive(Clone, Copy, PartialEq, Eq, Structural, Debug)]
pub struct GameConfig {
    pub time_per_turn: u64,
    pub time_cap: u64,
    pub allow_draws: bool,
}

/// A subset of `GameRules` used for starting a new game. All fields are
/// optional; times are in milliseconds.
#[derive(Clone, Copy, PartialEq, Eq, Structural, Debug)]
pub struct PartialGameConfig {
    pub time_per_turn: Option<u64>,
    pub time_cap: Option<u64>,
    pub allow_draws: Option<bool>,
}

/// `config` with every field that `partial` holds replaced.
pub open spec fn applied(config: GameConfig, partial: PartialGameConfig) -> GameConfig {
    GameConfig {
        time_per_turn: match partial.time_per_turn {
            Some(t) => t,
            None => config.time_per_turn,
        },
        time_cap: match partial.time_cap {
            Some(t) => t,
            None => config.time_cap,
        },
        allow_draws: match partial.allow_draws {
            Some(b) => b,
            None => config.allow_draws,
        },
    }
}

/// The configuration with every field zero or `false`.
pub open spec fn zero_config() -> GameConfig {
    GameConfig { time_per_turn: 0, time_cap: 0, allow_draws: false }
}

impl Default for GameConfig {
    fn default() -> (r: GameConfig)
        ensures
            r == zero_config(),
    {
        GameConfig { time_per_turn: 0, time_cap: 0, allow_draws: false }
    }
}

impl GameConfig {
    /// Create a new `GameConfig` with values copied from `PartialGameConfig`,
    /// where possible. If a value is missing, default value will be used instead.
    pub fn from_partial(partial: &PartialGameConfig) -> (r: GameConfig)
        ensures
            r == applied(zero_config(), *partial),
    {
        GameConfig {
            time_per_turn: match partial.time_per_turn {
                Some(t) => t,
                None => 0,
            },
            time_cap: match partial.time_cap {
                Some(t) => t,
                None => 0,
            },
            allow_draws: match partial.allow_draws {
                Some(b) => b,
                None => false,
            },
        }
    }

    /// Overwrites any settings contained within a `PartialGameConfig`.
    pub fn apply_partial(&mut self, partial: &PartialGameConfig)
        ensures
            *final(self) == applied(*old(self), *partial),
    {
        if let Some(time_per_turn) = partial.time_per_turn {
            self.time_per_turn = time_per_turn;
        }
        if let Some(time_cap) = partial.time_cap {
            self.time_cap = time_cap;
        }
        if let Some(allow_draws) = partial.allow_draws {
            self.allow_draws = allow_draws;
        }
    }
}

impl PartialGameConfig {
    /// Create a new `PartialGameConfig` with values copied from `GameConfig`.
    pub fn from_full(config: &GameConfig) -> (r: PartialGameConfig)
        ensures
            r.time_per_turn == Some(config.time_per_turn),
            r.time_cap == Some(config.time_cap),
            r.allow_draws == Some(config.allow_draws),
    {
        PartialGameConfig {
            time_per_turn: Some(config.time_per_turn),
            time_cap: Some(config.time_cap),
            allow_draws: Some(config.allow_draws),
        }
    }
}

} // verus!
