//! The answers to requests that are refused.

use vstd::prelude::*;

verus! {

/// Why a request was refused.
#[derive(Clone, Copy, PartialEq, Eq, Structural, Debug)]
pub enum GameError {
    InvalidDifficulty,
    InvalidSpeed,
    MatchNotFound,
    NotInMatch,
    MatchAlreadyStarted,
    AlreadyStarted,
    MatchFull,
    MatchNotInPlay,
    CannotSpawnNow,
    AlreadySpawned,
    MustSpawnOnLand,
    TooClose,
    TileClaimed,
    PlayerNotFound,
    InvalidBot,
    CannotAttackYourself,
    AttackerNotFound,
    Eliminated,
    NotYetSpawned,
    TargetNotFound,
    TargetNotInMatch,
    TargetIsDead,
    NotEnoughTroops,
    NoBorderingWilderness,
    NoBorderWithTarget,
    NoActiveAttack,
    MustBuildOnOwnTile,
    CityAlreadyExists,
    NotEnoughGold,
}

impl GameError {
    /// The text of the answer.
    pub open spec fn text(self) -> Seq<char> {
        match self {
            GameError::InvalidDifficulty =>
            "difficulty must be 0 (Easy), 1 (Normal), or 2 (Hard)"@,
            GameError::InvalidSpeed => "speed_multiplier must be 1, 2, 4, 8, or 16"@,
            GameError::MatchNotFound => "Match not found"@,
            GameError::NotInMatch => "Not in match"@,
            GameError::MatchAlreadyStarted => "Match already started"@,
            GameError::AlreadyStarted => "Already started"@,
            GameError::MatchFull => "Match full"@,
            GameError::MatchNotInPlay => "Match not in play"@,
            GameError::CannotSpawnNow => "Cannot spawn now"@,
            GameError::AlreadySpawned => "Already spawned"@,
            GameError::MustSpawnOnLand => "Must spawn on land"@,
            GameError::TooClose => "Too close to another player"@,
            GameError::TileClaimed => "Must spawn on unclaimed land"@,
            GameError::PlayerNotFound => "Player not found"@,
            GameError::InvalidBot => "Invalid bot"@,
            GameError::CannotAttackYourself => "Cannot attack yourself"@,
            GameError::AttackerNotFound => "Attacker not found"@,
            GameError::Eliminated => "Eliminated"@,
            GameError::NotYetSpawned => "Not yet spawned"@,
            GameError::TargetNotFound => "Target not found"@,
            GameError::TargetNotInMatch => "Target not in match"@,
            GameError::TargetIsDead => "Target is dead"@,
            GameError::NotEnoughTroops => "Not enough troops"@,
            GameError::NoBorderingWilderness => "No bordering wilderness"@,
            GameError::NoBorderWithTarget => "No border with target"@,
            GameError::NoActiveAttack => "No active attack"@,
            GameError::MustBuildOnOwnTile => "Must build on your own tile"@,
            GameError::CityAlreadyExists => "City already exists here"@,
            GameError::NotEnoughGold => "Not enough gold"@,
        }
    }

    /// The text of the answer.
    pub fn message(self) -> (r: &'static str)
        ensures
            r@ == self.text(),
    {
        match self {
            GameError::InvalidDifficulty => "difficulty must be 0 (Easy), 1 (Normal), or 2 (Hard)",
            GameError::InvalidSpeed => "speed_multiplier must be 1, 2, 4, 8, or 16",
            GameError::MatchNotFound => "Match not found",
            GameError::NotInMatch => "Not in match",
            GameError::MatchAlreadyStarted => "Match already started",
            GameError::AlreadyStarted => "Already started",
            GameError::MatchFull => "Match full",
            GameError::MatchNotInPlay => "Match not in play",
            GameError::CannotSpawnNow => "Cannot spawn now",
            GameError::AlreadySpawned => "Already spawned",
            GameError::MustSpawnOnLand => "Must spawn on land",
            GameError::TooClose => "Too close to another player",
            GameError::TileClaimed => "Must spawn on unclaimed land",
            GameError::PlayerNotFound => "Player not found",
            GameError::InvalidBot => "Invalid bot",
            GameError::CannotAttackYourself => "Cannot attack yourself",
            GameError::AttackerNotFound => "Attacker not found",
            GameError::Eliminated => "Eliminated",
            GameError::NotYetSpawned => "Not yet spawned",
            GameError::TargetNotFound => "Target not found",
            GameError::TargetNotInMatch => "Target not in match",
            GameError::TargetIsDead => "Target is dead",
            GameError::NotEnoughTroops => "Not enough troops",
            GameError::NoBorderingWilderness => "No bordering wilderness",
            GameError::NoBorderWithTarget => "No border with target",
            GameError::NoActiveAttack => "No active attack",
            GameError::MustBuildOnOwnTile => "Must build on your own tile",
            GameError::CityAlreadyExists => "City already exists here",
            GameError::NotEnoughGold => "Not enough gold",
        }
    }
}

} // verus!
