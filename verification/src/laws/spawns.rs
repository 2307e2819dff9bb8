//! Where players and bots come to the map, and what they start with.

use vstd::prelude::*;

use crate::chunks::{row_claimed, Board};
use crate::error::GameError;
use crate::grid::{lemma_tile_index, lemma_tile_point, tile_chunk_key};
use crate::players::human_place;
use crate::quantity::Quantity;
use crate::rng::{seed_after, seed_of};
use crate::spawn::{
    all_spawned, bot_came_to_map, bot_spawn_refusal, bot_tile, came_to_map, clear_of, far_from_all,
    is_unplaced_bot, placed, put_in_play, row_after, spawn_found, spawn_refusal, start_troops_bot,
    start_troops_human, tracking, SPAWN_TRIES,
};
use crate::tables::{Identity, Match, Player, PlayerView, TileChunk};
use crate::territory::lemma_chunks_gain;

verus! {

/// The place of a tile in the arrays of its chunk.
pub open spec fn cell(tile: u32) -> int {
    (tile as int / 1350 % 32) * 32 + tile as int % 1350 % 32
}

/// Has the tile land, in the row of its chunk: any kind of terrain but ocean?
pub open spec fn land_byte(row: Option<TileChunk>, tile: u32) -> bool {
    tile < 911_250 && row is Some && cell(tile) < row->Some_0.terrain@.len()
        && row->Some_0.terrain@[cell(tile)] != 0
}

/// Has the tile a holder, in the row of its chunk?
pub open spec fn holder_byte(row: Option<TileChunk>, tile: u32) -> bool {
    tile < 911_250 && row is Some && cell(tile) < row->Some_0.owners@.len()
        && row->Some_0.owners@[cell(tile)] != 255
}

/// Is the spawn tile of some player less than thirty tiles from a tile?
pub open spec fn crowded(players: Seq<Player>, tile: u32) -> bool {
    exists|i: int|
        0 <= i < players.len() && (#[trigger] players[i]).spawn_tile is Some && ({
            let dx = tile as int % 1350 - players[i].spawn_tile->Some_0 as int % 1350;
            let dy = tile as int / 1350 - players[i].spawn_tile->Some_0 as int / 1350;
            dx * dx + dy * dy < 900
        })
}

/// A tile is crowded where it is not far from all.
proof fn lemma_crowded(players: Seq<Player>, tile: u32)
    ensures
        crowded(players, tile) <==> !far_from_all(
            players,
            (tile as int % 1350) as u32,
            (tile as int / 1350) as u32,
        ),
{
    let tx = (tile as int % 1350) as u32;
    let ty = (tile as int / 1350) as u32;
    if crowded(players, tile) {
        let i = choose|i: int|
            0 <= i < players.len() && (#[trigger] players[i]).spawn_tile is Some && ({
                let dx = tile as int % 1350 - players[i].spawn_tile->Some_0 as int % 1350;
                let dy = tile as int / 1350 - players[i].spawn_tile->Some_0 as int / 1350;
                dx * dx + dy * dy < 900
            });
        assert(!clear_of(players[i], tx, ty));
    }
    if !far_from_all(players, tx, ty) {
        let i = choose|i: int| 0 <= i < players.len() && !clear_of(#[trigger] players[i], tx, ty);
        assert(players[i].spawn_tile is Some);
    }
}

/// A client spawns if and only if the match is in its spawn phase or being played, the client plays in
/// it and has not spawned, and the tile is land, thirty tiles or more from every spawn tile, and held by
/// nobody. Each refusal says which of these fails first.
pub proof fn lemma_spawn_answer(
    m: Option<Match>,
    players: Seq<Player>,
    row: Option<TileChunk>,
    sender: Identity,
    tile: u32,
)
    ensures
        ({
            let answer = spawn_refusal(m, players, row, sender, tile);
            let on = m is Some && (m->Some_0.phase == 1 || m->Some_0.phase == 2);
            let place = human_place(players, sender);
            let fresh = on && place is Some && players[place->Some_0].spawn_tile is None;
            let landed = fresh && land_byte(row, tile);
            &&& answer == Some(GameError::MatchNotFound) <==> m is None
            &&& answer == Some(GameError::CannotSpawnNow) <==> m is Some && !on
            &&& answer == Some(GameError::NotInMatch) <==> on && place is None
            &&& answer == Some(GameError::AlreadySpawned) <==> on && place is Some
                && players[place->Some_0].spawn_tile is Some
            &&& answer == Some(GameError::MustSpawnOnLand) <==> fresh && !land_byte(row, tile)
            &&& answer == Some(GameError::TooClose) <==> landed && crowded(players, tile)
            &&& answer == Some(GameError::TileClaimed) <==> landed && !crowded(players, tile)
                && holder_byte(row, tile)
            &&& answer is None <==> landed && !crowded(players, tile) && !holder_byte(row, tile)
        }),
{
    lemma_crowded(players, tile);
    if tile < 911_250 {
        lemma_tile_point(tile as int);
    }
}

/// A bot is placed if and only if it is a bot of the match that has not spawned, and the tile is land
/// that nobody holds. Each refusal says which of these fails first.
pub proof fn lemma_bot_spawn_answer(
    player: Option<Player>,
    match_id: u64,
    row: Option<TileChunk>,
    tile: u32,
)
    ensures
        ({
            let answer = bot_spawn_refusal(player, match_id, row, tile);
            let p = player->Some_0;
            let bot = player is Some && p.match_id == match_id && p.is_bot;
            let fresh = bot && p.spawn_tile is None;
            &&& answer == Some(GameError::PlayerNotFound) <==> player is None
            &&& answer == Some(GameError::InvalidBot) <==> player is Some && !bot
            &&& answer == Some(GameError::AlreadySpawned) <==> bot && p.spawn_tile is Some
            &&& answer == Some(GameError::MustSpawnOnLand) <==> fresh && !land_byte(row, tile)
            &&& answer == Some(GameError::TileClaimed) <==> fresh && land_byte(row, tile)
                && holder_byte(row, tile)
            &&& answer is None <==> fresh && land_byte(row, tile) && !holder_byte(row, tile)
        }),
{
    if tile < 911_250 {
        lemma_tile_point(tile as int);
    }
}

/// Players start with 35,000 troops on easy, 25,000 on normal and 17,500 on hard, bots with 10,000, each
/// a number in single precision: a power of two times a fraction of 2^23.
pub proof fn lemma_start_troops(difficulty: u8)
    ensures
        amounts_to(
            start_troops_human(difficulty),
            if difficulty == 0 {
                35_000
            } else if difficulty == 1 {
                25_000
            } else {
                17_500
            },
        ),
        amounts_to(start_troops_bot(), 10_000),
{
}

/// Is this quantity the whole number `n`, for numbers from 2^13 up to 2^16?
pub open spec fn amounts_to(q: Quantity, n: int) -> bool {
    let fraction = q.bits as int % 0x80_0000 + 0x80_0000;
    let power = q.bits as int / 0x80_0000 - 127;
    ||| power == 13 && fraction == n * 1024
    ||| power == 14 && fraction == n * 512
    ||| power == 15 && fraction == n * 256
}

/// A player that comes to the map has its spawn tile, its troops and their limit, one tile, no gold, and
/// tracks the tile's chunk, where there is room for it; nothing else changes.
pub proof fn lemma_placed(
    player: PlayerView,
    match_id: u64,
    tile: u32,
    troops: Quantity,
    max_troops: Quantity,
)
    ensures
        ({
            let after = tracking(placed(player, tile, troops, max_troops), match_id, tile);
            &&& after.spawn_tile == Some(tile)
            &&& after.troops == troops
            &&& after.max_troops == max_troops
            &&& after.gold == 0
            &&& after.tiles == 1
            &&& player.owned_chunks.len() < 1024 ==> after.owned_chunks.contains(
                tile_chunk_key(match_id, tile as int % 1350, tile as int / 1350),
            )
            &&& player.owned_chunks.len() == 0 ==> after.owned_chunks.len() == 1
            &&& after == (PlayerView {
                spawn_tile: after.spawn_tile,
                troops,
                max_troops,
                gold: 0,
                tiles: 1,
                owned_chunks: after.owned_chunks,
                ..player
            })
        }),
{
    if player.owned_chunks.len() < 1024 {
        lemma_chunks_gain(
            player.owned_chunks,
            tile_chunk_key(match_id, tile as int % 1350, tile as int / 1350),
        );
    }
}

/// Players start with the troops of their match's difficulty, bots with their own, both in their own
/// match: 35,000 at the easiest, then 25,000, then 17,500, and 10,000 for a bot.
pub proof fn lemma_came_to_map(m: Match, player: PlayerView, tile: u32, max_troops: Quantity)
    requires
        player.owned_chunks.len() < 1024,
    ensures
        ({
            let human = came_to_map(m, player, tile, max_troops);
            let bot = bot_came_to_map(m.id, player, tile, max_troops);
            let chunk = tile_chunk_key(m.id, tile as int % 1350, tile as int / 1350);
            &&& m.difficulty == 0 ==> amounts_to(human.troops, 35_000)
            &&& m.difficulty == 1 ==> amounts_to(human.troops, 25_000)
            &&& m.difficulty == 2 ==> amounts_to(human.troops, 17_500)
            &&& amounts_to(bot.troops, 10_000)
            &&& human.spawn_tile == Some(tile) && bot.spawn_tile == Some(tile)
            &&& human.max_troops == max_troops && bot.max_troops == max_troops
            &&& human.gold == 0 && bot.gold == 0
            &&& human.tiles == 1 && bot.tiles == 1
            &&& human.owned_chunks.contains(chunk) && bot.owned_chunks.contains(chunk)
            &&& human.id == player.id && bot.id == player.id
            &&& human.alive == player.alive && bot.alive == player.alive
        }),
{
    lemma_start_troops(m.difficulty);
    lemma_placed(player, m.id, tile, start_troops_human(m.difficulty), max_troops);
    lemma_placed(player, m.id, tile, start_troops_bot(), max_troops);
}

/// A spawn gives its tile to the player, in the row of the chunk that is stored, and changes nothing else
/// of that row.
pub proof fn lemma_spawn_claims(row: TileChunk, tile: u32, owner: u32, stored: Option<TileChunk>, i: int)
    requires
        row_after(row, tile, owner, stored),
        owner < 255,
        0 <= i < row.owners@.len(),
    ensures
        cell(tile) < row.owners@.len() ==> {
            let after = stored->Some_0;
            &&& stored is Some
            &&& after.owners@.len() == row.owners@.len()
            &&& i == cell(tile) ==> after.owners@[i] == owner
            &&& i != cell(tile) ==> after.owners@[i] == row.owners@[i]
            &&& after.terrain@ == row.terrain@
            &&& after.id == row.id
            &&& after.match_id == row.match_id
            &&& after.chunk_x == row.chunk_x
            &&& after.chunk_y == row.chunk_y
        },
        cell(tile) >= row.owners@.len() ==> stored is None,
{
    if cell(tile) < row.owners@.len() {
        let claimed = row_claimed(row@, tile as int % 1350, tile as int / 1350, owner);
        assert(stored->Some_0@ == claimed);
        assert(stored->Some_0@.owners == claimed.owners);
    }
}

/// The match is on once every player has a spawn tile.
pub proof fn lemma_all_spawned(players: Seq<Player>)
    ensures
        all_spawned(players) <==> !exists|i: int|
            0 <= i < players.len() && (#[trigger] players[i]).spawn_tile is None,
{
    if !all_spawned(players) {
        let i = choose|i: int|
            0 <= i < players.len() && !((#[trigger] players[i]).spawn_tile is Some);
        assert(players[i].spawn_tile is None);
    }
}

/// Only living bots that have not spawned are placed.
pub proof fn lemma_unplaced_bot(player: Player)
    ensures
        is_unplaced_bot(player) <==> player.is_bot && player.alive && player.spawn_tile is None,
{
}

/// A seed after so many steps.
pub open spec fn seed_in(seed: u64, steps: nat) -> u64
    decreases steps,
{
    if steps == 0 {
        seed
    } else {
        seed_after(seed_in(seed, (steps - 1) as nat))
    }
}

/// Is the point that a seed draws at a try, from its next two steps, land and thirty tiles or more from
/// every spawn tile?
pub open spec fn fits(board: Board, players: Seq<Player>, seed: u64, k: nat) -> bool {
    let tx = seed_in(seed, 2 * k + 1) as int % 1350;
    let ty = seed_in(seed, 2 * k + 2) as int % 675;
    board.terrain_at(tx, ty) != 0 && !crowded(players, (ty * 1350 + tx) as u32)
}

/// A bot takes the first of its draws that fits, and finds nothing only where none does. In a step it
/// draws two thousand times.
pub proof fn lemma_bot_finds_first_fit(board: Board, players: Seq<Player>, seed: u64, tries: nat)
    ensures
        match spawn_found(board, players, seed, tries) {
            Some((tx, ty)) => exists|k: nat|
                k < tries && #[trigger] fits(board, players, seed, k) && tx == seed_in(
                    seed,
                    2 * k + 1,
                ) as int % 1350 && ty == seed_in(seed, 2 * k + 2) as int % 675 && forall|j: nat|
                    j < k ==> !#[trigger] fits(board, players, seed, j),
            None => forall|k: nat| k < tries ==> !#[trigger] fits(board, players, seed, k),
        },
        SPAWN_TRIES == 2000,
    decreases tries,
{
    if tries > 0 {
        let sx = seed_after(seed);
        let sy = seed_after(sx);
        reveal_with_fuel(seed_in, 3);
        assert(seed_in(seed, 1) == sx);
        assert(seed_in(seed, 2) == sy);
        let tx = sx as int % 1350;
        let ty = sy as int % 675;
        let tile = (ty * 1350 + tx) as u32;
        lemma_tile_index(tx, ty);
        lemma_crowded(players, tile);
        assert(fits(board, players, seed, 0) <==> board.is_land(tx, ty) && far_from_all(
            players,
            tx as u32,
            ty as u32,
        ));
        let rest = (tries - 1) as nat;
        lemma_bot_finds_first_fit(board, players, sy, rest);
        assert forall|k: nat| #[trigger] fits(board, players, sy, k) == fits(
            board,
            players,
            seed,
            k + 1,
        ) && seed_in(sy, 2 * k + 1) == seed_in(seed, 2 * (k + 1) + 1) && seed_in(sy, 2 * k + 2)
            == seed_in(seed, 2 * (k + 1) + 2) by {
            lemma_seed_in(seed, 2, 2 * k + 1);
            lemma_seed_in(seed, 2, 2 * k + 2);
        }
        let found = spawn_found(board, players, seed, tries);
        if !fits(board, players, seed, 0) {
            match found {
                Some((fx, fy)) => {
                    let k = choose|k: nat|
                        k < rest && #[trigger] fits(board, players, sy, k) && fx == seed_in(
                            sy,
                            2 * k + 1,
                        ) as int % 1350 && fy == seed_in(sy, 2 * k + 2) as int % 675 && forall|
                            j: nat,
                        |
                            j < k ==> !#[trigger] fits(board, players, sy, j);
                    assert(fits(board, players, seed, k + 1));
                    assert forall|j: nat| j < k + 1 implies !#[trigger] fits(
                        board,
                        players,
                        seed,
                        j,
                    ) by {
                        if j > 0 {
                            let i = (j - 1) as nat;
                            assert(!fits(board, players, sy, i));
                        }
                    }
                },
                None => {
                    assert forall|k: nat| k < tries implies !#[trigger] fits(
                        board,
                        players,
                        seed,
                        k,
                    ) by {
                        if k > 0 {
                            let i = (k - 1) as nat;
                            assert(!fits(board, players, sy, i));
                        }
                    }
                },
            }
        }
    }
}

/// Steps of a seed add up.
proof fn lemma_seed_in(seed: u64, a: nat, b: nat)
    ensures
        seed_in(seed_in(seed, a), b) == seed_in(seed, a + b),
    decreases b,
{
    if b > 0 {
        lemma_seed_in(seed, a, (b - 1) as nat);
    }
}

/// A match is put in play as soon as no player is left without a spawn tile, bots included, and not
/// before. Nothing else of it changes.
pub proof fn lemma_put_in_play(m: Match, players: Seq<Player>)
    ensures
        ({
            let after = put_in_play(m, players);
            &&& after is None <==> exists|i: int|
                0 <= i < players.len() && (#[trigger] players[i]).spawn_tile is None
            &&& after is Some ==> after->Some_0.phase == 2 && after->Some_0 == (Match {
                phase: after->Some_0.phase,
                ..m
            })
        }),
{
}

/// Only a living bot without a spawn tile comes to the map by itself: on the first of its two thousand
/// draws that fits, which go by its match, its tick and itself, and not in this step if none does.
pub proof fn lemma_bot_comes(
    board: Board,
    bot: Player,
    players: Seq<Player>,
    match_id: u64,
    tick: u64,
)
    ensures
        ({
            let tile = bot_tile(board, bot, players, match_id, tick);
            let seed = seed_of(match_id, tick, bot.id as u64);
            &&& !bot.is_bot || !bot.alive || bot.spawn_tile is Some ==> tile is None
            &&& bot.is_bot && bot.alive && bot.spawn_tile is None ==> {
                &&& tile is None ==> forall|k: nat|
                    k < 2000 ==> !#[trigger] fits(board, players, seed, k)
                &&& tile is Some ==> exists|k: nat|
                    k < 2000 && #[trigger] fits(board, players, seed, k) && tile->Some_0 as int
                        % 1350 == seed_in(seed, 2 * k + 1) as int % 1350 && tile->Some_0 as int
                        / 1350 == seed_in(seed, 2 * k + 2) as int % 675 && forall|j: nat|
                        j < k ==> !#[trigger] fits(board, players, seed, j)
            }
        }),
{
    let seed = seed_of(match_id, tick, bot.id as u64);
    lemma_bot_finds_first_fit(board, players, seed, 2000);
    if let Some((tx, ty)) = spawn_found(board, players, seed, 2000) {
        lemma_tile_index(tx as int, ty as int);
    }
}

} // verus!
