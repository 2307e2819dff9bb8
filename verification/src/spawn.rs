//! How players and bots enter the map.

use vstd::prelude::*;

use crate::chunks::{
    get_owner, is_land, row_claimed, row_owner, row_terrain, set_owner, Board, ChunkCache,
};
use crate::error::GameError;
use crate::grid::{
    cell_of, dist_sq, distance_squared, lemma_tile_index, on_map, spawn_chunk_id, tile_chunk_key,
    tile_idx, MIN_SPAWN_DIST, SIM_H, SIM_TILES, SIM_W, TERRAIN_OCEAN,
};
use crate::players::{chunks_with, find_human, human_place, player_add_chunk};
use crate::quantity::Quantity;
use crate::rng::{rng_range, rng_seed, seed_after, seed_of};
use crate::tables::{
    phase_follows, Identity, Match, Player, PlayerView, TileChunk, PHASE_PLAYING, PHASE_SPAWN,
};

verus! {

/// How often a bot looks for a spawn tile in a step.
pub const SPAWN_TRIES: u32 = 2000;

/// The troops that a player starts with: 35,000 on easy, 25,000 on normal, 17,500 on hard.
pub open spec fn start_troops_human(difficulty: u8) -> Quantity {
    if difficulty == 0 {
        Quantity { bits: 0x4708_B800 }
    } else if difficulty == 1 {
        Quantity { bits: 0x46C3_5000 }
    } else {
        Quantity { bits: 0x4688_B800 }
    }
}

/// The troops that a bot starts with: 10,000.
pub open spec fn start_troops_bot() -> Quantity {
    Quantity { bits: 0x461C_4000 }
}

/// The point of a row-major tile index.
pub open spec fn tile_point(tile: u32) -> (u32, u32) {
    (tile % SIM_W, tile / SIM_W)
}

/// Are the players' spawn tiles on the map?
pub open spec fn spawns_on_map(players: Seq<Player>) -> bool {
    forall|i: int|
        #![trigger players[i]]
        0 <= i < players.len() ==> match players[i].spawn_tile {
            Some(tile) => tile < SIM_TILES,
            None => true,
        }
}

/// Is this player's spawn tile, if any, far enough from a point?
pub open spec fn clear_of(player: Player, tx: u32, ty: u32) -> bool {
    match player.spawn_tile {
        Some(tile) => distance_squared((tx, ty), tile_point(tile)) >= MIN_SPAWN_DIST
            * MIN_SPAWN_DIST,
        None => true,
    }
}

/// Is the point far enough from every spawn tile?
pub open spec fn far_from_all(players: Seq<Player>, tx: u32, ty: u32) -> bool {
    forall|i: int| 0 <= i < players.len() ==> clear_of(#[trigger] players[i], tx, ty)
}

/// Have all players spawned?
pub open spec fn all_spawned(players: Seq<Player>) -> bool {
    forall|i: int| 0 <= i < players.len() ==> (#[trigger] players[i]).spawn_tile is Some
}

/// The match in play, once all its players have spawned.
pub open spec fn put_in_play(m: Match, players: Seq<Player>) -> Option<Match> {
    if all_spawned(players) {
        Some(Match { phase: PHASE_PLAYING, ..m })
    } else {
        None
    }
}

/// Is the tile land, in the row of its chunk?
pub open spec fn land_in_row(row: Option<TileChunk>, tile: u32) -> bool {
    tile < SIM_TILES && row is Some && row_terrain(
        row->Some_0@,
        tile as int % SIM_W as int,
        tile as int / SIM_W as int,
    ) != TERRAIN_OCEAN
}

/// Does somebody hold the tile, in the row of its chunk?
pub open spec fn held_in_row(row: Option<TileChunk>, tile: u32) -> bool {
    tile < SIM_TILES && row is Some && row_owner(
        row->Some_0@,
        tile as int % SIM_W as int,
        tile as int / SIM_W as int,
    ) is Some
}

/// The row of the chunk after the tile has been given to a player, if it is to be stored.
pub open spec fn row_after(row: TileChunk, tile: u32, owner: u32, stored: Option<TileChunk>) -> bool {
    let tx = tile as int % SIM_W as int;
    let ty = tile as int / SIM_W as int;
    if cell_of(tx, ty) < row@.owners.len() {
        stored is Some && stored->Some_0@ == row_claimed(row@, tx, ty, owner)
    } else {
        stored is None
    }
}

/// The row of a player that has come to the map.
pub open spec fn placed(
    player: PlayerView,
    tile: u32,
    troops: Quantity,
    max_troops: Quantity,
) -> PlayerView {
    PlayerView { spawn_tile: Some(tile), troops, gold: 0, tiles: 1, max_troops, ..player }
}

/// The row of a player that tracks the chunk of its spawn tile.
pub open spec fn tracking(player: PlayerView, match_id: u64, tile: u32) -> PlayerView {
    PlayerView {
        owned_chunks: chunks_with(
            player.owned_chunks,
            tile_chunk_key(match_id, tile as int % SIM_W as int, tile as int / SIM_W as int),
        ),
        ..player
    }
}

/// A client's player that has come to the map of a match.
pub open spec fn came_to_map(
    m: Match,
    player: PlayerView,
    tile: u32,
    max_troops: Quantity,
) -> PlayerView {
    tracking(placed(player, tile, start_troops_human(m.difficulty), max_troops), m.id, tile)
}

/// A bot that has come to the map of a match.
pub open spec fn bot_came_to_map(
    match_id: u64,
    player: PlayerView,
    tile: u32,
    max_troops: Quantity,
) -> PlayerView {
    tracking(placed(player, tile, start_troops_bot(), max_troops), match_id, tile)
}

/// Why a client cannot spawn on a tile, if so. `row` is that of the tile's chunk.
pub open spec fn spawn_refusal(
    m: Option<Match>,
    players: Seq<Player>,
    row: Option<TileChunk>,
    sender: Identity,
    tile: u32,
) -> Option<GameError> {
    if m is None {
        Some(GameError::MatchNotFound)
    } else if m->Some_0.phase != PHASE_SPAWN && m->Some_0.phase != PHASE_PLAYING {
        Some(GameError::CannotSpawnNow)
    } else if human_place(players, sender) is None {
        Some(GameError::NotInMatch)
    } else if players[human_place(players, sender)->Some_0].spawn_tile is Some {
        Some(GameError::AlreadySpawned)
    } else if !land_in_row(row, tile) {
        Some(GameError::MustSpawnOnLand)
    } else if !far_from_all(players, tile_point(tile).0, tile_point(tile).1) {
        Some(GameError::TooClose)
    } else if held_in_row(row, tile) {
        Some(GameError::TileClaimed)
    } else {
        None
    }
}

/// Why a bot cannot spawn on a tile, if so. `row` is that of the tile's chunk.
pub open spec fn bot_spawn_refusal(
    player: Option<Player>,
    match_id: u64,
    row: Option<TileChunk>,
    tile: u32,
) -> Option<GameError> {
    if player is None {
        Some(GameError::PlayerNotFound)
    } else if player->Some_0.match_id != match_id || !player->Some_0.is_bot {
        Some(GameError::InvalidBot)
    } else if player->Some_0.spawn_tile is Some {
        Some(GameError::AlreadySpawned)
    } else if !land_in_row(row, tile) {
        Some(GameError::MustSpawnOnLand)
    } else if held_in_row(row, tile) {
        Some(GameError::TileClaimed)
    } else {
        None
    }
}

/// What a spawn changes besides the players: the rows to store.
pub struct Spawned {
    /// The place of the player that has spawned.
    pub place: usize,
    /// The row of the chunk, if it has changed.
    pub row: Option<TileChunk>,
    /// The row of the match, if it has changed.
    pub started: Option<Match>,
}

/// What a bot's spawn changes: the rows to store.
pub struct BotSpawned {
    pub player: Player,
    /// The row of the chunk, if it has changed.
    pub row: Option<TileChunk>,
}

/// Is the point far enough from every spawn tile?
fn is_far_from_all(players: &Vec<Player>, tx: u32, ty: u32) -> (r: bool)
    requires
        spawns_on_map(players@),
        on_map(tx as int, ty as int),
    ensures
        r == far_from_all(players@, tx, ty),
{
    let mut i: usize = 0;
    while i < players.len()
        invariant
            spawns_on_map(players@),
            on_map(tx as int, ty as int),
            i <= players@.len(),
            forall|j: int| 0 <= j < i ==> clear_of(#[trigger] players@[j], tx, ty),
        decreases players@.len() - i,
    {
        if let Some(tile) = players[i].spawn_tile {
            let ox: u32 = tile % SIM_W;
            let oy: u32 = tile / SIM_W;
            assert(on_map(ox as int, oy as int));
            if dist_sq((tx, ty), (ox, oy)) < MIN_SPAWN_DIST * MIN_SPAWN_DIST {
                assert(!clear_of(players@[i as int], tx, ty));
                return false;
            }
        }
        i += 1;
    }
    true
}

/// Have all players spawned?
fn are_all_spawned(players: &Vec<Player>) -> (r: bool)
    ensures
        r == all_spawned(players@),
{
    let mut i: usize = 0;
    while i < players.len()
        invariant
            i <= players@.len(),
            forall|j: int| 0 <= j < i ==> (#[trigger] players@[j]).spawn_tile is Some,
        decreases players@.len() - i,
    {
        if players[i].spawn_tile.is_none() {
            return false;
        }
        i += 1;
    }
    true
}

/// The row of the chunk of a land tile after the tile has been given to a player, if it is to be
/// stored.
fn claim_in_row(row: Option<TileChunk>, tile: u32, owner: u32) -> (r: Option<TileChunk>)
    requires
        land_in_row(row, tile),
    ensures
        row_after(row->Some_0, tile, owner, r),
{
    match row {
        Some(row) => {
            let mut row: TileChunk = row;
            if set_owner(&mut row, tile % SIM_W, tile / SIM_W, owner) {
                Some(row)
            } else {
                None
            }
        },
        None => None,
    }
}

/// A client's request to spawn on a tile. `row` is that of the tile's chunk, and `max_troops` the
/// most troops that a player with one tile can have. The match is on once everybody has spawned.
pub fn spawn(
    m: Option<Match>,
    players: &mut Vec<Player>,
    row: Option<TileChunk>,
    sender: Identity,
    tile: u32,
    max_troops: Quantity,
) -> (r: Result<Spawned, GameError>)
    requires
        spawns_on_map(old(players)@),
    ensures
        match spawn_refusal(m, old(players)@, row, sender, tile) {
            Some(error) => r == Err::<Spawned, GameError>(error) && final(players)@ == old(
                players,
            )@,
            None => {
                let place = human_place(old(players)@, sender)->Some_0;
                let before = old(players)@[place];
                &&& r is Ok
                &&& r->Ok_0.place == place
                &&& 0 <= place < old(players)@.len()
                &&& final(players)@ == old(players)@.update(place, final(players)@[place])
                &&& final(players)@[place]@ == came_to_map(m->Some_0, before@, tile, max_troops)
                &&& row_after(row->Some_0, tile, before.id, r->Ok_0.row)
                &&& r->Ok_0.started == put_in_play(m->Some_0, final(players)@)
                &&& r->Ok_0.started is Some ==> phase_follows(
                    m->Some_0.phase,
                    r->Ok_0.started->Some_0.phase,
                )
            },
        },
{
    let mut m: Match = match m {
        Some(m) => m,
        None => {
            return Err(GameError::MatchNotFound);
        },
    };
    if m.phase != PHASE_SPAWN && m.phase != PHASE_PLAYING {
        return Err(GameError::CannotSpawnNow);
    }
    let place: usize = match find_human(players, sender) {
        Some(place) => place,
        None => {
            return Err(GameError::NotInMatch);
        },
    };
    if players[place].spawn_tile.is_some() {
        return Err(GameError::AlreadySpawned);
    }
    let tx: u32 = tile % SIM_W;
    let ty: u32 = tile / SIM_W;
    if !is_land(row.as_ref(), tx, ty) {
        return Err(GameError::MustSpawnOnLand);
    }
    if !is_far_from_all(players, tx, ty) {
        return Err(GameError::TooClose);
    }
    if get_owner(row.as_ref(), tx, ty).is_some() {
        return Err(GameError::TileClaimed);
    }
    players[place].spawn_tile = Some(tile);
    players[place].troops = if m.difficulty == 0 {
        Quantity { bits: 0x4708_B800 }
    } else if m.difficulty == 1 {
        Quantity { bits: 0x46C3_5000 }
    } else {
        Quantity { bits: 0x4688_B800 }
    };
    players[place].gold = 0;
    players[place].tiles = 1;
    players[place].max_troops = max_troops;
    let stored: Option<TileChunk> = claim_in_row(row, tile, players[place].id);
    if let Some(chunk_id) = spawn_chunk_id(m.id, tx, ty) {
        player_add_chunk(&mut players[place], chunk_id);
    }
    let started: Option<Match> = if are_all_spawned(players) {
        m.phase = PHASE_PLAYING;
        Some(m)
    } else {
        None
    };
    assert(players@ =~= old(players)@.update(place as int, players@[place as int]));
    Ok(Spawned { place, row: stored, started })
}

/// Why a bot cannot spawn on a tile, if so.
fn check_bot_spawn(player: &Option<Player>, match_id: u64, row: &Option<TileChunk>, tile: u32) -> (r:
    Option<GameError>)
    ensures
        r == bot_spawn_refusal(*player, match_id, *row, tile),
{
    match player {
        Some(p) => {
            if p.match_id != match_id || !p.is_bot {
                return Some(GameError::InvalidBot);
            }
            if p.spawn_tile.is_some() {
                return Some(GameError::AlreadySpawned);
            }
            if !is_land(row.as_ref(), tile % SIM_W, tile / SIM_W) {
                return Some(GameError::MustSpawnOnLand);
            }
            if get_owner(row.as_ref(), tile % SIM_W, tile / SIM_W).is_some() {
                return Some(GameError::TileClaimed);
            }
            None
        },
        None => Some(GameError::PlayerNotFound),
    }
}

/// A request to put a bot on a tile. The bot tracks the tile's chunk.
pub fn bot_spawn(
    player: Option<Player>,
    match_id: u64,
    row: Option<TileChunk>,
    tile: u32,
    max_troops: Quantity,
) -> (r: Result<BotSpawned, GameError>)
    ensures
        match bot_spawn_refusal(player, match_id, row, tile) {
            Some(error) => r == Err::<BotSpawned, GameError>(error),
            None => {
                &&& r is Ok
                &&& r->Ok_0.player@ == bot_came_to_map(match_id, player->Some_0@, tile, max_troops)
                &&& row_after(row->Some_0, tile, player->Some_0.id, r->Ok_0.row)
            },
        },
{
    bot_spawn_internal(player, match_id, row, tile, max_troops)
}

/// Puts a bot on a tile, and has it track the tile's chunk.
pub fn bot_spawn_internal(
    player: Option<Player>,
    match_id: u64,
    row: Option<TileChunk>,
    tile: u32,
    max_troops: Quantity,
) -> (r: Result<BotSpawned, GameError>)
    ensures
        match bot_spawn_refusal(player, match_id, row, tile) {
            Some(error) => r == Err::<BotSpawned, GameError>(error),
            None => {
                &&& r is Ok
                &&& r->Ok_0.player@ == bot_came_to_map(match_id, player->Some_0@, tile, max_troops)
                &&& row_after(row->Some_0, tile, player->Some_0.id, r->Ok_0.row)
            },
        },
{
    if let Some(error) = check_bot_spawn(&player, match_id, &row, tile) {
        return Err(error);
    }
    match player {
        Some(p) => {
            let mut p: Player = p;
            p.spawn_tile = Some(tile);
            p.troops = Quantity { bits: 0x461C_4000 };
            p.gold = 0;
            p.tiles = 1;
            p.max_troops = max_troops;
            let stored: Option<TileChunk> = claim_in_row(row, tile, p.id);
            if let Some(chunk_id) = spawn_chunk_id(match_id, tile % SIM_W, tile / SIM_W) {
                player_add_chunk(&mut p, chunk_id);
            }
            Ok(BotSpawned { player: p, row: stored })
        },
        None => Err(GameError::PlayerNotFound),
    }
}

/// The point that a bot finds to spawn on in so many tries, from a seed.
pub open spec fn spawn_found(board: Board, players: Seq<Player>, seed: u64, tries: nat) -> Option<
    (u32, u32),
>
    decreases tries,
{
    if tries == 0 {
        None
    } else {
        let sx = seed_after(seed);
        let sy = seed_after(sx);
        let tx = (sx as int % SIM_W as int) as u32;
        let ty = (sy as int % SIM_H as int) as u32;
        if board.is_land(tx as int, ty as int) && far_from_all(players, tx, ty) {
            Some((tx, ty))
        } else {
            spawn_found(board, players, sy, (tries - 1) as nat)
        }
    }
}

/// Looks for a land tile that is far enough from every spawn tile.
pub fn find_bot_spawn(cache: &ChunkCache, players: &Vec<Player>, seed: u64) -> (r: Option<
    (u32, u32),
>)
    requires
        cache.wf(),
        spawns_on_map(players@),
    ensures
        r == spawn_found(cache.board(), players@, seed, SPAWN_TRIES as nat),
        r is Some ==> {
            let (tx, ty) = r->Some_0;
            &&& on_map(tx as int, ty as int)
            &&& cache.board().is_land(tx as int, ty as int)
            &&& far_from_all(players@, tx, ty)
        },
{
    let mut s: u64 = seed;
    let mut left: u32 = SPAWN_TRIES;
    while left > 0
        invariant
            cache.wf(),
            spawns_on_map(players@),
            left <= SPAWN_TRIES,
            spawn_found(cache.board(), players@, seed, SPAWN_TRIES as nat) == spawn_found(
                cache.board(),
                players@,
                s,
                left as nat,
            ),
        decreases left,
    {
        let (sx, tx): (u64, u32) = rng_range(s, SIM_W);
        let (sy, ty): (u64, u32) = rng_range(sx, SIM_H);
        s = sy;
        left -= 1;
        if cache.is_land(tx, ty) && is_far_from_all(players, tx, ty) {
            return Some((tx, ty));
        }
    }
    None
}

/// Is this a bot that has yet to come to the map?
pub open spec fn is_unplaced_bot(player: Player) -> bool {
    player.is_bot && player.alive && player.spawn_tile is None
}

/// The tile that a bot comes to the map on in a step of its match, if it does.
pub open spec fn bot_tile(
    board: Board,
    bot: Player,
    players: Seq<Player>,
    match_id: u64,
    tick: u64,
) -> Option<u32> {
    if is_unplaced_bot(bot) {
        match spawn_found(
            board,
            players,
            seed_of(match_id, tick, bot.id as u64),
            SPAWN_TRIES as nat,
        ) {
            Some((tx, ty)) => Some((ty * SIM_W + tx) as u32),
            None => None,
        }
    } else {
        None
    }
}

/// The tile on which a bot is to be put in a step of its match, if it has yet to come to the map
/// and finds one.
pub fn bot_spawn_tile(
    cache: &ChunkCache,
    bot: &Player,
    players: &Vec<Player>,
    match_id: u64,
    current_tick: u64,
) -> (r: Option<u32>)
    requires
        cache.wf(),
        spawns_on_map(players@),
    ensures
        r == bot_tile(cache.board(), *bot, players@, match_id, current_tick),
        r is Some ==> r->Some_0 < SIM_TILES && far_from_all(
            players@,
            tile_point(r->Some_0).0,
            tile_point(r->Some_0).1,
        ),
{
    if !bot.is_bot || !bot.alive || bot.spawn_tile.is_some() {
        return None;
    }
    let seed: u64 = rng_seed(match_id, current_tick, bot.id as u64);
    match find_bot_spawn(cache, players, seed) {
        Some((tx, ty)) => {
            proof {
                lemma_tile_index(tx as int, ty as int);
            }
            Some(tile_idx(tx, ty))
        },
        None => None,
    }
}

/// Are all spawn tiles far enough from each other?
pub open spec fn spawns_apart(players: Seq<Player>) -> bool {
    forall|i: int, j: int|
        #![trigger players[i], players[j]]
        0 <= i < players.len() && 0 <= j < players.len() && i != j && players[i].spawn_tile is Some
            && players[j].spawn_tile is Some ==> distance_squared(
            tile_point(players[i].spawn_tile->Some_0),
            tile_point(players[j].spawn_tile->Some_0),
        ) >= MIN_SPAWN_DIST * MIN_SPAWN_DIST
}

/// A spawn that is not too close to anybody keeps all spawn tiles apart and on the map. So do the
/// tiles that bots find.
pub proof fn lemma_spawn_keeps_apart(players: Seq<Player>, place: int, after: Player, tile: u32)
    requires
        0 <= place < players.len(),
        spawns_apart(players),
        spawns_on_map(players),
        tile < SIM_TILES,
        far_from_all(players, tile_point(tile).0, tile_point(tile).1),
        after.spawn_tile == Some(tile),
    ensures
        spawns_apart(players.update(place, after)),
        spawns_on_map(players.update(place, after)),
{
    let result = players.update(place, after);
    assert forall|i: int, j: int|
        #![trigger result[i], result[j]]
        0 <= i < result.len() && 0 <= j < result.len() && i != j && result[i].spawn_tile is Some
            && result[j].spawn_tile is Some implies distance_squared(
        tile_point(result[i].spawn_tile->Some_0),
        tile_point(result[j].spawn_tile->Some_0),
    ) >= MIN_SPAWN_DIST * MIN_SPAWN_DIST by {
        let a = tile_point(result[i].spawn_tile->Some_0);
        let b = tile_point(result[j].spawn_tile->Some_0);
        if i == place {
            assert(clear_of(players[j], a.0, a.1));
        } else if j == place {
            assert(clear_of(players[i], b.0, b.1));
            lemma_distance_symmetric(a, b);
        } else {
            assert(result[i] == players[i] && result[j] == players[j]);
        }
    }
}

/// Distances are symmetric.
proof fn lemma_distance_symmetric(a: (u32, u32), b: (u32, u32))
    ensures
        distance_squared(a, b) == distance_squared(b, a),
{
    let dx = a.0 - b.0;
    let dy = a.1 - b.1;
    assert(dx * dx == (-dx) * (-dx)) by (nonlinear_arith);
    assert(dy * dy == (-dy) * (-dy)) by (nonlinear_arith);
}

} // verus!
