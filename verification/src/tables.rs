//! The rows of the game: matches, players, tile chunks, attacks, cities, chat lines and the
//! tick schedule.

use vstd::prelude::*;

use crate::quantity::Quantity;

verus! {

/// A match that players still join.
pub const PHASE_LOBBY: u8 = 0;

/// A match whose players choose their spawn tiles.
pub const PHASE_SPAWN: u8 = 1;

/// A match that is being played.
pub const PHASE_PLAYING: u8 = 2;

/// A match that has a winner.
pub const PHASE_ENDED: u8 = 3;

/// May a match go from one phase to the other? Phases never go back, and none is skipped.
pub open spec fn phase_follows(before: u8, after: u8) -> bool {
    ||| after == before
    ||| before == PHASE_LOBBY && after == PHASE_SPAWN
    ||| before == PHASE_SPAWN && after == PHASE_PLAYING
    ||| before == PHASE_PLAYING && after == PHASE_ENDED
}

/// The owner byte of a tile that nobody holds.
pub const UNCLAIMED: u8 = 255;

/// The target id of an attack on unclaimed land.
pub const TARGET_WILDERNESS: u32 = 0;

/// The 256-bit identity of a client, in two halves.
#[derive(Clone, Copy, PartialEq, Eq, Structural, Debug)]
pub struct Identity {
    pub hi: u128,
    pub lo: u128,
}

/// A match.
#[derive(Clone, PartialEq, Debug)]
pub struct Match {
    pub id: u64,
    pub creator: Identity,
    pub name: String,
    pub tick: u64,
    pub phase: u8,
    /// Microseconds since the Unix epoch.
    pub created_at: i64,
    pub winner: Option<u32>,
    pub total_land: u32,
    /// 0 easy, 1 normal, 2 hard.
    pub difficulty: u8,
    /// In quarters: 1 is a quarter of the normal speed, 4 the normal speed, 16 four times it.
    pub speed_multiplier: u8,
    /// Quarters of a step that are left over at less than the normal speed.
    pub sub_tick_accum: u8,
}

/// A player of a match.
#[derive(Clone, PartialEq, Debug)]
pub struct Player {
    pub id: u32,
    pub match_id: u64,
    pub identity: Identity,
    pub name: String,
    pub color: u8,
    pub spawn_tile: Option<u32>,
    pub troops: Quantity,
    /// A whole number, kept in single precision.
    pub gold: u32,
    pub max_troops: Quantity,
    pub tiles: u32,
    pub alive: bool,
    pub is_bot: bool,
    pub traitor_until: u64,
    pub city_count: u32,
    pub city_levels: u32,
    /// The ids of the chunks in which the player holds a tile.
    pub owned_chunks: Vec<u64>,
    /// The tick from which a bot may attack again.
    pub next_attack_tick: u64,
}

/// What a player's row holds.
#[verifier::ext_equal]
pub struct PlayerView {
    pub id: u32,
    pub match_id: u64,
    pub identity: Identity,
    pub name: Seq<char>,
    pub color: u8,
    pub spawn_tile: Option<u32>,
    pub troops: Quantity,
    pub gold: u32,
    pub max_troops: Quantity,
    pub tiles: u32,
    pub alive: bool,
    pub is_bot: bool,
    pub traitor_until: u64,
    pub city_count: u32,
    pub city_levels: u32,
    pub owned_chunks: Seq<u64>,
    pub next_attack_tick: u64,
}

impl View for Player {
    type V = PlayerView;

    open spec fn view(&self) -> PlayerView {
        PlayerView {
            id: self.id,
            match_id: self.match_id,
            identity: self.identity,
            name: self.name@,
            color: self.color,
            spawn_tile: self.spawn_tile,
            troops: self.troops,
            gold: self.gold,
            max_troops: self.max_troops,
            tiles: self.tiles,
            alive: self.alive,
            is_bot: self.is_bot,
            traitor_until: self.traitor_until,
            city_count: self.city_count,
            city_levels: self.city_levels,
            owned_chunks: self.owned_chunks@,
            next_attack_tick: self.next_attack_tick,
        }
    }
}

/// A square of tiles.
#[derive(Clone, PartialEq, Debug)]
pub struct TileChunk {
    pub id: u64,
    pub match_id: u64,
    pub chunk_x: u16,
    pub chunk_y: u16,
    /// Row by row, who holds each tile.
    pub owners: Vec<u8>,
    /// Row by row, the terrain of each tile.
    pub terrain: Vec<u8>,
}

/// What a chunk's row holds.
#[verifier::ext_equal]
pub struct ChunkView {
    pub id: u64,
    pub match_id: u64,
    pub chunk_x: u16,
    pub chunk_y: u16,
    pub owners: Seq<u8>,
    pub terrain: Seq<u8>,
}

impl View for TileChunk {
    type V = ChunkView;

    open spec fn view(&self) -> ChunkView {
        ChunkView {
            id: self.id,
            match_id: self.match_id,
            chunk_x: self.chunk_x,
            chunk_y: self.chunk_y,
            owners: self.owners@,
            terrain: self.terrain@,
        }
    }
}

/// An attack under way.
#[derive(Clone, PartialEq, Debug)]
pub struct Attack {
    pub id: u64,
    pub match_id: u64,
    pub attacker: u32,
    /// The target's player id, or [`TARGET_WILDERNESS`].
    pub target: u32,
    /// The troops that the attack still has.
    pub troops: Quantity,
    /// Set by a retreat; the next step refunds the troops and drops the row.
    pub retreating: bool,
    /// The target's tiles that lie next to the attacker's.
    pub border: Vec<u32>,
    /// The tiles to conquer, with their priorities beside them.
    pub to_conquer_tiles: Vec<u32>,
    pub to_conquer_priorities: Vec<i32>,
    /// Where an attack from the sea starts. Ground attacks have none.
    pub source_tile: Option<u32>,
    /// The tick at which the border was last gathered.
    pub last_refresh_tick: u64,
}

/// What an attack's row holds.
#[verifier::ext_equal]
pub struct AttackView {
    pub id: u64,
    pub match_id: u64,
    pub attacker: u32,
    pub target: u32,
    pub troops: Quantity,
    pub retreating: bool,
    pub border: Seq<u32>,
    pub to_conquer_tiles: Seq<u32>,
    pub to_conquer_priorities: Seq<i32>,
    pub source_tile: Option<u32>,
    pub last_refresh_tick: u64,
}

impl View for Attack {
    type V = AttackView;

    open spec fn view(&self) -> AttackView {
        AttackView {
            id: self.id,
            match_id: self.match_id,
            attacker: self.attacker,
            target: self.target,
            troops: self.troops,
            retreating: self.retreating,
            border: self.border@,
            to_conquer_tiles: self.to_conquer_tiles@,
            to_conquer_priorities: self.to_conquer_priorities@,
            source_tile: self.source_tile,
            last_refresh_tick: self.last_refresh_tick,
        }
    }
}

/// A city on a tile.
#[derive(Clone, Copy, PartialEq, Debug)]
pub struct City {
    pub id: u64,
    pub match_id: u64,
    pub owner_id: u32,
    pub tile: u32,
    pub level: u8,
    pub under_construction: bool,
    pub build_progress: u32,
}

/// A line of chat.
#[derive(Clone, PartialEq, Debug)]
pub struct Chat {
    pub id: u64,
    pub match_id: u64,
    pub from: u32,
    pub text: String,
    /// Milliseconds since the Unix epoch.
    pub ts: u64,
}

/// The repeating timer that drives the simulation.
#[derive(Clone, Copy, PartialEq, Debug)]
pub struct TickSchedule {
    pub scheduled_id: u64,
    /// The time between two ticks, in microseconds.
    pub interval_micros: i64,
}

} // verus!
