//! What the rows of the players say about the map: how many tiles a player holds, and in which
//! chunks they lie. Captures and spawns keep both true.

use vstd::prelude::*;
use vstd::set_lib::{lemma_int_range, lemma_len_subset, set_int_range};

use crate::attack::{
    advanced, booked, fought, narrowed, resolved, still_open, widened, AttackAction, CombatOutcome,
    RunView,
};
use crate::chunks::{lemma_claimed, owner_of_byte, row_owner, row_terrain, Board};
use crate::conquest::{after_turns, Play, Turn};
use crate::economy::{grown_player, with_city};
use crate::front::{capturable, prey_around};
use crate::grid::{
    baked_terrain, cell_of, chunk_index, chunk_key, chunk_tile, lemma_chunk_in_range,
    lemma_chunk_key, lemma_chunk_tile, lemma_tile_cell, lemma_tile_index, lemma_tile_point, on_map,
    tile_chunk_key, CHUNKS_X, CHUNKS_Y, CHUNK_SIZE, CHUNK_TILES, SIM_TILES, SIM_W,
};
use crate::lobby::fresh_chunk;
use crate::players::{
    chunks_with, chunks_without, human_place, with_tile, without_tile, OWNED_CHUNKS_CAP,
};
use crate::quantity::Quantity;
use crate::spawn::{
    bot_spawn_refusal, held_in_row, land_in_row, placed, spawn_refusal, start_troops_bot,
    start_troops_human, tracking,
};
use crate::tables::{
    Identity, Match, Player, PlayerView, TileChunk, TARGET_WILDERNESS, UNCLAIMED,
};

verus! {

/// Does a player hold the tile with this row-major index?
pub open spec fn holds(board: Board, player: u32, t: int) -> bool {
    0 <= t < SIM_TILES && board.owner_at(t % SIM_W as int, t / SIM_W as int) == Some(player)
}

/// The tiles that a player holds, by their row-major indices.
pub open spec fn holdings(board: Board, player: u32) -> Set<int> {
    Set::new(|t: int| holds(board, player, t))
}

/// The id of the chunk of a tile, by the tile's row-major index.
pub open spec fn chunk_of(board: Board, t: int) -> u64 {
    tile_chunk_key(board.match_id, t % SIM_W as int, t / SIM_W as int)
}

/// Does a player hold a tile of a chunk?
pub open spec fn holds_in(board: Board, player: u32, chunk_id: u64) -> bool {
    exists|t: int| #[trigger] holds(board, player, t) && chunk_of(board, t) == chunk_id
}

/// Is the count of a player's tiles right?
pub open spec fn counts(board: Board, player: PlayerView) -> bool {
    player.tiles == holdings(board, player.id).len()
}

/// Does a player track exactly the chunks in which it holds a tile, each of them once?
pub open spec fn tracks(board: Board, player: PlayerView) -> bool {
    &&& player.owned_chunks.no_duplicates()
    &&& forall|c: u64| #[trigger]
        player.owned_chunks.contains(c) <==> holds_in(board, player.id, c)
}

/// Have the known rows of the match an owner byte for every cell, unclaimed off the map?
pub open spec fn tidy(board: Board) -> bool {
    forall|index: int|
        #![trigger chunk_key(board.match_id, index)]
        0 <= index < CHUNKS_X * CHUNKS_Y && board.rows.contains_key(
            chunk_key(board.match_id, index) as u64,
        ) ==> tidy_row(board.rows[chunk_key(board.match_id, index) as u64].owners, index)
}

/// Has the row of a chunk an owner byte for every cell, unclaimed off the map?
pub open spec fn tidy_row(owners: Seq<u8>, index: int) -> bool {
    &&& owners.len() == CHUNK_TILES
    &&& forall|cell: int|
        0 <= cell < CHUNK_TILES && !on_map(chunk_tile(index, cell).0, chunk_tile(index, cell).1)
            ==> #[trigger] owners[cell] == UNCLAIMED
}

/// Nobody holds more tiles than there are.
pub proof fn lemma_holdings(board: Board, player: u32)
    ensures
        holdings(board, player).finite(),
        holdings(board, player).len() <= SIM_TILES,
{
    lemma_int_range(0, SIM_TILES as int);
    lemma_len_subset(holdings(board, player), set_int_range(0, SIM_TILES as int));
}

/// Who holds what after a tile has been given to a player.
pub proof fn lemma_holds_after(board: Board, tile: u32, owner: u32, player: u32, t: int)
    requires
        tile < SIM_TILES,
        board.has_tile(tile as int % SIM_W as int, tile as int / SIM_W as int),
        owner < UNCLAIMED,
    ensures
        holds(
            board.claimed(tile as int % SIM_W as int, tile as int / SIM_W as int, owner),
            player,
            t,
        ) == if t == tile {
            player == owner
        } else {
            holds(board, player, t)
        },
{
    let tx = tile as int % SIM_W as int;
    let ty = tile as int / SIM_W as int;
    assert(owner_of_byte(owner as u8) == Some(owner));
    if 0 <= t < SIM_TILES {
        lemma_claimed(board, tx, ty, owner, t % SIM_W as int, t / SIM_W as int);
        lemma_tile_point(t);
        lemma_tile_point(tile as int);
    }
}

/// What everybody holds after a tile has been given to a player.
pub proof fn lemma_holdings_after(board: Board, tile: u32, owner: u32, player: u32)
    requires
        tile < SIM_TILES,
        board.has_tile(tile as int % SIM_W as int, tile as int / SIM_W as int),
        owner < UNCLAIMED,
    ensures
        holdings(
            board.claimed(tile as int % SIM_W as int, tile as int / SIM_W as int, owner),
            player,
        ) == if player == owner {
            holdings(board, player).insert(tile as int)
        } else {
            holdings(board, player).remove(tile as int)
        },
{
    let after = board.claimed(tile as int % SIM_W as int, tile as int / SIM_W as int, owner);
    assert forall|t: int| holds(after, player, t) == if t == tile {
        player == owner
    } else {
        holds(board, player, t)
    } by {
        lemma_holds_after(board, tile, owner, player, t);
    }
    if player == owner {
        assert(holdings(after, player) =~= holdings(board, player).insert(tile as int));
    } else {
        assert(holdings(after, player) =~= holdings(board, player).remove(tile as int));
    }
}

/// Widening a front changes nobody's row, and not the attack's target.
proof fn lemma_widened_rows(run: RunView, tiles: Seq<(u32, i32)>, n: int)
    ensures
        widened(run, tiles, n).attacker == run.attacker,
        widened(run, tiles, n).target == run.target,
        widened(run, tiles, n).attack.target == run.attack.target,
    decreases n,
{
    if n > 0 {
        lemma_widened_rows(run, tiles, n - 1);
    }
}

/// The rows of the attacker and the target after a capture.
proof fn lemma_captured_rows(run: RunView, board: Board, tile: u32, outcome: CombatOutcome)
    requires
        board.has_tile(tile as int % SIM_W as int, tile as int / SIM_W as int),
        capturable(
            run.attack.target,
            board.owner_at(tile as int % SIM_W as int, tile as int / SIM_W as int),
        ),
    ensures
        ({
            let after = board.claimed(
                tile as int % SIM_W as int,
                tile as int / SIM_W as int,
                run.attacker.id,
            );
            let chunk_id = chunk_of(board, tile as int);
            let result = resolved(run, board, tile, outcome);
            &&& result.attacker == with_tile(run.attacker, chunk_id)
            &&& result.target == match fought(run, outcome).target {
                Some(t) => Some(without_tile(t, chunk_id, after.chunk_has_owner(chunk_id, t.id))),
                None => None,
            }
        }),
{
    let tx = tile as int % SIM_W as int;
    let ty = tile as int / SIM_W as int;
    let after = board.claimed(tx, ty, run.attacker.id);
    let start = fought(run, outcome);
    let prey = prey_around(after, run.attacker.id, run.attack.target, tx, ty, run.tick, 4);
    lemma_widened_rows(narrowed(booked(start, after, tx, ty), tile), prey, prey.len() as int);
}

/// Does the row of the target belong to the attack's target?
pub open spec fn target_matches(run: RunView) -> bool {
    match run.target {
        Some(t) => t.id == run.attack.target && t.id < UNCLAIMED && t.id != TARGET_WILDERNESS,
        None => run.attack.target == TARGET_WILDERNESS,
    }
}

/// A capture keeps the counts of tiles right: the attacker has one more, the target one less, and
/// nobody else gains or loses any.
pub proof fn lemma_capture_counts(run: RunView, board: Board, tile: u32, outcome: CombatOutcome)
    requires
        tile < SIM_TILES,
        board.has_tile(tile as int % SIM_W as int, tile as int / SIM_W as int),
        capturable(
            run.attack.target,
            board.owner_at(tile as int % SIM_W as int, tile as int / SIM_W as int),
        ),
        run.attacker.id < UNCLAIMED,
        run.attacker.id != run.attack.target,
        target_matches(run),
        counts(board, run.attacker),
        run.target is Some ==> counts(board, run.target->Some_0),
    ensures
        ({
            let after = board.claimed(
                tile as int % SIM_W as int,
                tile as int / SIM_W as int,
                run.attacker.id,
            );
            let result = resolved(run, board, tile, outcome);
            &&& counts(after, result.attacker)
            &&& result.attacker.tiles == run.attacker.tiles + 1
            &&& result.target is Some ==> counts(after, result.target->Some_0)
                && result.target->Some_0.tiles == run.target->Some_0.tiles - 1
            &&& forall|other: u32|
                other != run.attacker.id && other != run.attack.target ==> #[trigger] holdings(
                    after,
                    other,
                ) == holdings(board, other)
        }),
{
    let after = board.claimed(
        tile as int % SIM_W as int,
        tile as int / SIM_W as int,
        run.attacker.id,
    );
    lemma_captured_rows(run, board, tile, outcome);
    lemma_holdings(board, run.attacker.id);
    lemma_holdings(after, run.attacker.id);
    lemma_holdings_after(board, tile, run.attacker.id, run.attacker.id);
    assert(!holdings(board, run.attacker.id).contains(tile as int));
    if run.target is Some {
        let t = run.target->Some_0;
        lemma_holdings(board, t.id);
        lemma_holdings_after(board, tile, run.attacker.id, t.id);
        assert(holdings(board, t.id).contains(tile as int));
    }
    assert forall|other: u32|
        other != run.attacker.id && other != run.attack.target implies #[trigger] holdings(
        after,
        other,
    ) == holdings(board, other) by {
        lemma_holdings_after(board, tile, run.attacker.id, other);
        assert(holdings(board, other).remove(tile as int) =~= holdings(board, other));
    }
}

/// The ids of the first `n` chunks of a match.
spec fn keys_below(match_id: u64, n: int) -> Set<u64> {
    Set::new(|c: u64| exists|i: int| 0 <= i < n && c == #[trigger] chunk_key(match_id, i))
}

/// There are no more ids than chunks.
proof fn lemma_keys_below(match_id: u64, n: int)
    requires
        0 <= n <= 0x1_0000_0000,
    ensures
        keys_below(match_id, n).finite(),
        keys_below(match_id, n).len() <= n,
    decreases n,
{
    if n == 0 {
        assert(keys_below(match_id, 0) =~= Set::empty());
    } else {
        lemma_keys_below(match_id, n - 1);
        lemma_chunk_key(match_id, n - 1);
        let key = chunk_key(match_id, n - 1) as u64;
        assert(keys_below(match_id, n) =~= keys_below(match_id, n - 1).insert(key)) by {
            assert forall|c: u64| keys_below(match_id, n).contains(c) implies keys_below(
                match_id,
                n - 1,
            ).insert(key).contains(c) by {
                let i = choose|i: int| 0 <= i < n && c == #[trigger] chunk_key(match_id, i);
                if i < n - 1 {
                    assert(keys_below(match_id, n - 1).contains(c));
                }
            }
            assert(chunk_key(match_id, n - 1) == key);
        }
    }
}

/// A player that tracks its chunks tracks no more than the map has, so that the limit on tracked
/// chunks is never met.
pub proof fn lemma_tracked_chunks(board: Board, player: PlayerView)
    requires
        tracks(board, player),
    ensures
        player.owned_chunks.len() <= CHUNKS_X * CHUNKS_Y,
        player.owned_chunks.len() < OWNED_CHUNKS_CAP,
{
    let n = CHUNKS_X * CHUNKS_Y;
    let keys = keys_below(board.match_id, n);
    lemma_keys_below(board.match_id, n);
    let set = player.owned_chunks.to_set();
    player.owned_chunks.unique_seq_to_set();
    assert forall|c: u64| set.contains(c) implies keys.contains(c) by {
        assert(player.owned_chunks.contains(c));
        let t = choose|t: int| #[trigger]
            holds(board, player.id, t) && chunk_of(board, t) == c;
        let tx = t % SIM_W as int;
        let ty = t / SIM_W as int;
        lemma_tile_point(t);
        lemma_chunk_in_range(tx, ty);
        let index = chunk_index(tx / CHUNK_SIZE as int, ty / CHUNK_SIZE as int);
        lemma_chunk_key(board.match_id, index);
        assert(c == chunk_key(board.match_id, index));
    }
    lemma_len_subset(set, keys);
}

/// In a tidy row, a player's byte stands for a tile that the player holds.
proof fn lemma_byte_is_tile(board: Board, player: u32, t: int)
    requires
        tidy(board),
        0 <= t < SIM_TILES,
        player < UNCLAIMED,
        board.chunk_has_owner(chunk_of(board, t), player),
    ensures
        holds_in(board, player, chunk_of(board, t)),
{
    let tx = t % SIM_W as int;
    let ty = t / SIM_W as int;
    lemma_tile_point(t);
    lemma_chunk_in_range(tx, ty);
    let index = chunk_index(tx / CHUNK_SIZE as int, ty / CHUNK_SIZE as int);
    let key = chunk_key(board.match_id, index);
    lemma_chunk_key(board.match_id, index);
    let owners = board.rows[chunk_of(board, t)].owners;
    assert(key as u64 == chunk_of(board, t));
    assert(tidy_row(owners, index));
    let cell = choose|cell: int| 0 <= cell < owners.len() && owners[cell] == player as u8;
    let (ux, uy) = chunk_tile(index, cell);
    assert(on_map(ux, uy));
    lemma_chunk_tile(index, cell);
    lemma_tile_index(ux, uy);
    let u = uy * SIM_W + ux;
    assert(board.row_at(ux, uy) is Some);
    assert(holds(board, player, u));
    assert(chunk_of(board, u) == chunk_of(board, t));
}

/// A tile's owner has its byte in the row of the tile's chunk.
proof fn lemma_tile_is_byte(board: Board, player: u32, t: int)
    requires
        holds(board, player, t),
    ensures
        board.chunk_has_owner(chunk_of(board, t), player),
{
    let tx = t % SIM_W as int;
    let ty = t / SIM_W as int;
    lemma_tile_point(t);
    lemma_chunk_in_range(tx, ty);
    let owners = board.rows[chunk_of(board, t)].owners;
    assert(owners[cell_of(tx, ty)] == player as u8);
}

/// A tidy board stays tidy when tiles change hands.
pub proof fn lemma_tidy_after(board: Board, tx: int, ty: int, owner: u32)
    requires
        tidy(board),
        on_map(tx, ty),
    ensures
        tidy(board.claimed(tx, ty, owner)),
{
    let after = board.claimed(tx, ty, owner);
    lemma_chunk_in_range(tx, ty);
    let place = chunk_index(tx / CHUNK_SIZE as int, ty / CHUNK_SIZE as int);
    lemma_chunk_key(board.match_id, place);
    assert forall|index: int|
        #![trigger chunk_key(after.match_id, index)]
        0 <= index < CHUNKS_X * CHUNKS_Y && after.rows.contains_key(
            chunk_key(after.match_id, index) as u64,
        ) implies tidy_row(after.rows[chunk_key(after.match_id, index) as u64].owners, index) by {
        let key = chunk_key(board.match_id, index);
        lemma_chunk_key(board.match_id, index);
        if board.row_at(tx, ty) is Some {
            assert(tidy_row(board.rows[key as u64].owners, index));
            if index == place {
                lemma_tile_cell(tx, ty);
            }
        }
    }
}

/// A chunk that is added is tracked, and so is all that was.
pub proof fn lemma_chunks_gain(chunks: Seq<u64>, chunk_id: u64)
    requires
        chunks.len() < OWNED_CHUNKS_CAP,
    ensures
        chunks_with(chunks, chunk_id).contains(chunk_id),
        forall|c: u64|
            chunks.contains(c) ==> #[trigger] chunks_with(chunks, chunk_id).contains(c),
{
    if !chunks.contains(chunk_id) {
        let after = chunks.push(chunk_id);
        assert(after[chunks.len() as int] == chunk_id);
        assert forall|c: u64| chunks.contains(c) implies #[trigger] after.contains(c) by {
            let i = choose|i: int| 0 <= i < chunks.len() && chunks[i] == c;
            assert(after[i] == c);
        }
    }
}

/// What is tracked once a chunk has been added.
pub proof fn lemma_chunks_with(chunks: Seq<u64>, chunk_id: u64)
    requires
        chunks.no_duplicates(),
        chunks.len() < OWNED_CHUNKS_CAP,
    ensures
        chunks_with(chunks, chunk_id).no_duplicates(),
        forall|c: u64| #[trigger]
            chunks_with(chunks, chunk_id).contains(c) <==> chunks.contains(c) || c == chunk_id,
{
    if !chunks.contains(chunk_id) {
        let after = chunks.push(chunk_id);
        assert forall|c: u64| #[trigger] after.contains(c) <==> chunks.contains(c) || c
            == chunk_id by {
            assert(after[chunks.len() as int] == chunk_id);
            if chunks.contains(c) {
                let i = choose|i: int| 0 <= i < chunks.len() && chunks[i] == c;
                assert(after[i] == c);
            }
        }
    }
}

/// What is tracked once a chunk has been taken out.
pub proof fn lemma_chunks_without(chunks: Seq<u64>, chunk_id: u64)
    requires
        chunks.no_duplicates(),
    ensures
        chunks_without(chunks, chunk_id).no_duplicates(),
        forall|c: u64| #[trigger]
            chunks_without(chunks, chunk_id).contains(c) <==> chunks.contains(c) && c != chunk_id,
{
    chunks.index_of_first_ensures(chunk_id);
    let after = chunks_without(chunks, chunk_id);
    match chunks.index_of_first(chunk_id) {
        Some(place) => {
            let last = chunks.len() - 1;
            assert(after.len() == last);
            assert forall|i: int| 0 <= i < last implies after[i] == chunks[if i == place {
                last
            } else {
                i
            }] by {}
            assert forall|c: u64| #[trigger] after.contains(c) <==> chunks.contains(c) && c
                != chunk_id by {
                if after.contains(c) {
                    let i = choose|i: int| 0 <= i < after.len() && after[i] == c;
                    let j = if i == place {
                        last
                    } else {
                        i
                    };
                    assert(chunks[j] == c);
                }
                if chunks.contains(c) && c != chunk_id {
                    let j = choose|j: int| 0 <= j < chunks.len() && chunks[j] == c;
                    let i = if j == last {
                        place
                    } else {
                        j
                    };
                    assert(after[i] == c);
                }
            }
        },
        None => {},
    }
}

/// Where a player holds tiles after a tile has been given to somebody else, or where the player
/// had nothing to lose.
proof fn lemma_holds_in_after(board: Board, tile: u32, owner: u32, player: u32, c: u64)
    requires
        tile < SIM_TILES,
        board.has_tile(tile as int % SIM_W as int, tile as int / SIM_W as int),
        owner < UNCLAIMED,
    ensures
        ({
            let after = board.claimed(
                tile as int % SIM_W as int,
                tile as int / SIM_W as int,
                owner,
            );
            &&& player == owner ==> holds_in(after, player, c) == (holds_in(board, player, c) || c
                == chunk_of(board, tile as int))
            &&& player != owner && c != chunk_of(board, tile as int) ==> holds_in(after, player, c)
                == holds_in(board, player, c)
            &&& player != owner && !holds(board, player, tile as int) ==> holds_in(
                after,
                player,
                c,
            ) == holds_in(board, player, c)
        }),
{
    let after = board.claimed(tile as int % SIM_W as int, tile as int / SIM_W as int, owner);
    assert forall|t: int| #[trigger] holds(after, player, t) == if t == tile {
        player == owner
    } else {
        holds(board, player, t)
    } by {
        lemma_holds_after(board, tile, owner, player, t);
    }
    assert forall|t: int| chunk_of(after, t) == chunk_of(board, t) by {}
    if holds_in(board, player, c) {
        let t = choose|t: int| #[trigger] holds(board, player, t) && chunk_of(board, t) == c;
        assert(t != tile ==> holds(after, player, t));
    }
    if holds_in(after, player, c) {
        let t = choose|t: int| #[trigger] holds(after, player, t) && chunk_of(after, t) == c;
        assert(t != tile ==> holds(board, player, t));
    }
    if player == owner && c == chunk_of(board, tile as int) {
        assert(holds(after, player, tile as int));
    }
}

/// A capture keeps the tracked chunks right, for the attacker, the target and everybody else.
pub proof fn lemma_capture_tracks(run: RunView, board: Board, tile: u32, outcome: CombatOutcome)
    requires
        tile < SIM_TILES,
        tidy(board),
        board.has_tile(tile as int % SIM_W as int, tile as int / SIM_W as int),
        capturable(
            run.attack.target,
            board.owner_at(tile as int % SIM_W as int, tile as int / SIM_W as int),
        ),
        run.attacker.id < UNCLAIMED,
        run.attacker.id != run.attack.target,
        target_matches(run),
        tracks(board, run.attacker),
        run.target is Some ==> tracks(board, run.target->Some_0),
    ensures
        ({
            let after = board.claimed(
                tile as int % SIM_W as int,
                tile as int / SIM_W as int,
                run.attacker.id,
            );
            let result = resolved(run, board, tile, outcome);
            &&& tidy(after)
            &&& tracks(after, result.attacker)
            &&& result.target is Some ==> tracks(after, result.target->Some_0)
            &&& forall|other: PlayerView|
                other.id != run.attacker.id && other.id != run.attack.target && tracks(
                    board,
                    other,
                ) ==> #[trigger] tracks(after, other)
        }),
{
    let tx = tile as int % SIM_W as int;
    let ty = tile as int / SIM_W as int;
    let after = board.claimed(tx, ty, run.attacker.id);
    let result = resolved(run, board, tile, outcome);
    let chunk_id = chunk_of(board, tile as int);
    lemma_tile_point(tile as int);
    lemma_tidy_after(board, tx, ty, run.attacker.id);
    lemma_captured_rows(run, board, tile, outcome);
    lemma_tracked_chunks(board, run.attacker);
    lemma_chunks_with(run.attacker.owned_chunks, chunk_id);
    assert forall|c: u64| #[trigger]
        result.attacker.owned_chunks.contains(c) <==> holds_in(after, run.attacker.id, c) by {
        lemma_holds_in_after(board, tile, run.attacker.id, run.attacker.id, c);
        assert(run.attacker.owned_chunks.contains(c) <==> holds_in(board, run.attacker.id, c));
    }
    if run.target is Some {
        lemma_target_tracks(run, board, tile, outcome);
    }
    assert forall|other: PlayerView|
        other.id != run.attacker.id && other.id != run.attack.target && tracks(
            board,
            other,
        ) implies #[trigger] tracks(after, other) by {
        assert forall|c: u64| #[trigger] other.owned_chunks.contains(c) <==> holds_in(
            after,
            other.id,
            c,
        ) by {
            lemma_holds_in_after(board, tile, run.attacker.id, other.id, c);
        }
    }
}

/// The target's part of that.
proof fn lemma_target_tracks(run: RunView, board: Board, tile: u32, outcome: CombatOutcome)
    requires
        tile < SIM_TILES,
        tidy(board),
        board.has_tile(tile as int % SIM_W as int, tile as int / SIM_W as int),
        capturable(
            run.attack.target,
            board.owner_at(tile as int % SIM_W as int, tile as int / SIM_W as int),
        ),
        run.attacker.id < UNCLAIMED,
        run.attacker.id != run.attack.target,
        target_matches(run),
        run.target is Some,
        tracks(board, run.target->Some_0),
    ensures
        ({
            let after = board.claimed(
                tile as int % SIM_W as int,
                tile as int / SIM_W as int,
                run.attacker.id,
            );
            let result = resolved(run, board, tile, outcome);
            result.target is Some && tracks(after, result.target->Some_0)
        }),
{
    let tx = tile as int % SIM_W as int;
    let ty = tile as int / SIM_W as int;
    let after = board.claimed(tx, ty, run.attacker.id);
    let result = resolved(run, board, tile, outcome);
    let chunk_id = chunk_of(board, tile as int);
    let t = run.target->Some_0;
    let u = result.target->Some_0;
    lemma_tile_point(tile as int);
    lemma_tidy_after(board, tx, ty, run.attacker.id);
    lemma_captured_rows(run, board, tile, outcome);
    lemma_chunks_without(t.owned_chunks, chunk_id);
    let holds_others = after.chunk_has_owner(chunk_id, t.id);
    assert(chunk_of(after, tile as int) == chunk_id);
    if holds_others {
        lemma_byte_is_tile(after, t.id, tile as int);
    }
    if holds_in(after, t.id, chunk_id) {
        let v = choose|v: int| #[trigger] holds(after, t.id, v) && chunk_of(after, v) == chunk_id;
        lemma_tile_is_byte(after, t.id, v);
    }
    assert(holds_others == holds_in(after, t.id, chunk_id));
    assert(holds(board, t.id, tile as int));
    assert forall|c: u64| #[trigger] u.owned_chunks.contains(c) <==> holds_in(after, u.id, c) by {
        lemma_holds_in_after(board, tile, run.attacker.id, t.id, c);
        assert(t.owned_chunks.contains(c) <==> holds_in(board, t.id, c));
        assert(holds_in(board, t.id, chunk_id));
    }
}

/// Giving away a tile that the board has no owner byte for changes nothing.
proof fn lemma_no_tile(board: Board, tx: int, ty: int, owner: u32)
    requires
        !board.has_tile(tx, ty),
    ensures
        board.claimed(tx, ty, owner) == board,
{
    assert(board.claimed(tx, ty, owner).rows =~= board.rows);
}

/// Are the rows of an attack's attacker and target right: their counts of tiles, and the chunks that
/// they track?
pub open spec fn rows_right(run: RunView, board: Board) -> bool {
    &&& counts(board, run.attacker)
    &&& tracks(board, run.attacker)
    &&& run.target is Some ==> counts(board, run.target->Some_0)
    &&& run.target is Some ==> tracks(board, run.target->Some_0)
}

/// Has nobody but these two gained or lost anything?
pub open spec fn others_untouched(before: Board, after: Board, a: u32, b: u32) -> bool {
    &&& forall|other: u32|
        other != a && other != b ==> #[trigger] holdings(after, other) == holdings(before, other)
    &&& forall|other: PlayerView|
        other.id != a && other.id != b && tracks(before, other) ==> #[trigger] tracks(after, other)
}

/// A fight keeps the rows of both sides right and everybody else's territory as it is.
proof fn lemma_fight_keeps_territory(
    run: RunView,
    board: Board,
    tile: u32,
    outcome: CombatOutcome,
)
    requires
        tidy(board),
        run.attacker.id < UNCLAIMED,
        run.attacker.id != run.attack.target,
        target_matches(run),
        rows_right(run, board),
        still_open(run, board, tile),
    ensures
        ({
            let after = board.claimed(
                tile as int % SIM_W as int,
                tile as int / SIM_W as int,
                run.attacker.id,
            );
            let result = resolved(run, board, tile, outcome);
            &&& tidy(after)
            &&& rows_right(result, after)
            &&& target_matches(result)
            &&& result.attacker.id == run.attacker.id
            &&& result.attack.target == run.attack.target
            &&& others_untouched(board, after, run.attacker.id, run.attack.target)
        }),
{
    let tx = tile as int % SIM_W as int;
    let ty = tile as int / SIM_W as int;
    let after = board.claimed(tx, ty, run.attacker.id);
    let result = resolved(run, board, tile, outcome);
    if board.has_tile(tx, ty) {
        assert(tile < SIM_TILES);
        let start = fought(run, outcome);
        let prey = prey_around(after, run.attacker.id, run.attack.target, tx, ty, run.tick, 4);
        lemma_widened_rows(narrowed(booked(start, after, tx, ty), tile), prey, prey.len() as int);
        lemma_captured_rows(run, board, tile, outcome);
        lemma_capture_counts(run, board, tile, outcome);
        lemma_capture_tracks(run, board, tile, outcome);
    } else {
        lemma_no_tile(board, tx, ty, run.attacker.id);
        assert(result == fought(run, outcome));
    }
}

/// Through a whole step of an attack, the counts of tiles and the tracked chunks of the attacker and
/// the target stay right, and nobody else gains or loses anything.
pub proof fn lemma_step_keeps_territory(play: Play, turns: Seq<Turn>)
    requires
        tidy(play.board),
        play.run.attacker.id < UNCLAIMED,
        play.run.attacker.id != play.run.attack.target,
        target_matches(play.run),
        rows_right(play.run, play.board),
    ensures
        ({
            let end = after_turns(play, turns);
            &&& tidy(end.board)
            &&& rows_right(end.run, end.board)
            &&& target_matches(end.run)
            &&& end.run.attacker.id == play.run.attacker.id
            &&& end.run.attack.target == play.run.attack.target
            &&& others_untouched(
                play.board,
                end.board,
                play.run.attacker.id,
                play.run.attack.target,
            )
        }),
    decreases turns.len(),
{
    if turns.len() > 0 {
        lemma_step_keeps_territory(play, turns.drop_last());
        let before = after_turns(play, turns.drop_last());
        let turn = turns.last();
        let (run, action) = advanced(before.run, before.board, turn.budget);
        assert(run.attacker == before.run.attacker && run.target == before.run.target);
        if let AttackAction::Combat { tile, terrain } = action {
            lemma_fight_keeps_territory(run, before.board, tile, turn.outcome);
            let after = before.board.claimed(
                tile as int % SIM_W as int,
                tile as int / SIM_W as int,
                run.attacker.id,
            );
            assert forall|other: PlayerView|
                other.id != run.attacker.id && other.id != run.attack.target && tracks(
                    play.board,
                    other,
                ) implies #[trigger] tracks(after, other) by {
                assert(tracks(before.board, other));
            }
            assert forall|other: u32|
                other != run.attacker.id && other != run.attack.target implies
                #[trigger] holdings(after, other) == holdings(play.board, other) by {
                assert(holdings(before.board, other) == holdings(play.board, other));
            }
        }
    }
}

/// Has a player come to a tile of the board, so that its row is right, and nobody else has gained or
/// lost anything?
pub open spec fn settled(board: Board, tile: u32, result: PlayerView) -> bool {
    let after = board.claimed(
        tile as int % SIM_W as int,
        tile as int / SIM_W as int,
        result.id,
    );
    &&& counts(after, result)
    &&& tracks(after, result)
    &&& forall|other: u32|
        other != result.id ==> #[trigger] holdings(after, other) == holdings(board, other)
    &&& forall|other: PlayerView|
        other.id != result.id && tracks(board, other) ==> #[trigger] tracks(after, other)
}

/// A player that has nothing and spawns on an unclaimed tile holds that tile alone and tracks its
/// chunk alone.
proof fn lemma_spawn_settles(
    board: Board,
    player: PlayerView,
    tile: u32,
    troops: Quantity,
    max_troops: Quantity,
)
    requires
        tile < SIM_TILES,
        board.has_tile(tile as int % SIM_W as int, tile as int / SIM_W as int),
        board.owner_at(tile as int % SIM_W as int, tile as int / SIM_W as int) is None,
        player.id < UNCLAIMED,
        tracks(board, player),
        player.owned_chunks.len() == 0,
    ensures
        settled(
            board,
            tile,
            tracking(placed(player, tile, troops, max_troops), board.match_id, tile),
        ),
{
    let after = board.claimed(
        tile as int % SIM_W as int,
        tile as int / SIM_W as int,
        player.id,
    );
    let result = tracking(placed(player, tile, troops, max_troops), board.match_id, tile);
    let chunk_id = chunk_of(board, tile as int);
    assert forall|t: int| !holds(board, player.id, t) by {
        if holds(board, player.id, t) {
            assert(holds_in(board, player.id, chunk_of(board, t)));
            assert(player.owned_chunks.contains(chunk_of(board, t)));
        }
    }
    lemma_holdings_after(board, tile, player.id, player.id);
    assert(holdings(board, player.id) =~= Set::empty());
    lemma_chunks_with(player.owned_chunks, chunk_id);
    assert forall|c: u64| #[trigger] result.owned_chunks.contains(c) <==> holds_in(
        after,
        player.id,
        c,
    ) by {
        lemma_holds_in_after(board, tile, player.id, player.id, c);
        assert(player.owned_chunks.contains(c) <==> holds_in(board, player.id, c));
    }
    assert forall|other: u32| other != player.id implies #[trigger] holdings(after, other)
        == holdings(board, other) by {
        lemma_holdings_after(board, tile, player.id, other);
        assert(holdings(board, other).remove(tile as int) =~= holdings(board, other));
    }
    assert forall|other: PlayerView|
        other.id != player.id && tracks(board, other) implies #[trigger] tracks(after, other) by {
        assert forall|c: u64| #[trigger] other.owned_chunks.contains(c) <==> holds_in(
            after,
            other.id,
            c,
        ) by {
            lemma_holds_in_after(board, tile, player.id, other.id, c);
        }
    }
}

/// Is this the row of a tile's chunk, on a board that is tidy?
pub open spec fn row_on_board(board: Board, row: Option<TileChunk>, tile: u32) -> bool {
    &&& tidy(board)
    &&& board.row_at(tile as int % SIM_W as int, tile as int / SIM_W as int) == match row {
        Some(r) => Some(r@),
        None => None,
    }
}

/// A tile that is open in the row of its chunk is open on the board.
proof fn lemma_row_on_board(board: Board, row: Option<TileChunk>, tile: u32)
    requires
        row_on_board(board, row, tile),
        land_in_row(row, tile),
        !held_in_row(row, tile),
    ensures
        board.has_tile(tile as int % SIM_W as int, tile as int / SIM_W as int),
        board.owner_at(tile as int % SIM_W as int, tile as int / SIM_W as int) is None,
{
    let tx = tile as int % SIM_W as int;
    let ty = tile as int / SIM_W as int;
    lemma_tile_point(tile as int);
    lemma_chunk_in_range(tx, ty);
    let index = chunk_index(tx / CHUNK_SIZE as int, ty / CHUNK_SIZE as int);
    lemma_chunk_key(board.match_id, index);
    assert(tidy_row(board.rows[chunk_key(board.match_id, index) as u64].owners, index));
}

/// A spawn that is not refused keeps counts and tracked chunks right, in every phase of a match: the
/// player had nothing, the tile was nobody's, and nobody else gains or loses anything.
pub proof fn lemma_spawn_keeps_territory(
    board: Board,
    m: Match,
    players: Seq<Player>,
    row: Option<TileChunk>,
    sender: Identity,
    tile: u32,
    max_troops: Quantity,
)
    requires
        row_on_board(board, row, tile),
        board.match_id == m.id,
        spawn_refusal(Some(m), players, row, sender, tile) is None,
        players[human_place(players, sender)->Some_0].id < UNCLAIMED,
        players[human_place(players, sender)->Some_0].owned_chunks@.len() == 0,
        tracks(board, players[human_place(players, sender)->Some_0]@),
    ensures
        ({
            let before = players[human_place(players, sender)->Some_0]@;
            let troops = start_troops_human(m.difficulty);
            settled(
                board,
                tile,
                tracking(placed(before, tile, troops, max_troops), m.id, tile),
            )
        }),
{
    let before = players[human_place(players, sender)->Some_0]@;
    lemma_row_on_board(board, row, tile);
    lemma_spawn_settles(board, before, tile, start_troops_human(m.difficulty), max_troops);
}

/// So does the spawn of a bot that is not refused.
pub proof fn lemma_bot_spawn_keeps_territory(
    board: Board,
    bot: Player,
    row: Option<TileChunk>,
    tile: u32,
    max_troops: Quantity,
)
    requires
        row_on_board(board, row, tile),
        bot_spawn_refusal(Some(bot), board.match_id, row, tile) is None,
        bot.id < UNCLAIMED,
        bot.owned_chunks@.len() == 0,
        tracks(board, bot@),
    ensures
        settled(
            board,
            tile,
            tracking(
                placed(bot@, tile, start_troops_bot(), max_troops),
                board.match_id,
                tile,
            ),
        ),
{
    lemma_row_on_board(board, row, tile);
    lemma_spawn_settles(board, bot@, tile, start_troops_bot(), max_troops);
}

/// Growth and cities leave a player's territory as it is.
pub proof fn lemma_peace_keeps_territory(
    board: Board,
    player: Player,
    max_troops: Quantity,
    grown: Quantity,
)
    requires
        counts(board, player@),
        tracks(board, player@),
    ensures
        counts(board, grown_player(player, max_troops, grown)@),
        tracks(board, grown_player(player, max_troops, grown)@),
        counts(board, with_city(player, max_troops)@),
        tracks(board, with_city(player, max_troops)@),
{
}

/// Are the rows that a match starts with known?
pub open spec fn knows_fresh(board: Board, terrain: Seq<u8>) -> bool {
    forall|index: int|
        #![trigger chunk_key(board.match_id, index)]
        0 <= index < CHUNKS_X * CHUNKS_Y ==> board.rows.contains_key(
            chunk_key(board.match_id, index) as u64,
        ) && board.rows[chunk_key(board.match_id, index) as u64] == fresh_chunk(
            board.match_id,
            terrain,
            index,
        )
}

/// At the start of a match the map has its baked terrain, nobody holds a tile, and nobody tracks a
/// chunk.
pub proof fn lemma_fresh_board(board: Board, terrain: Seq<u8>, player: PlayerView)
    requires
        knows_fresh(board, terrain),
        player.owned_chunks.len() == 0,
        player.tiles == 0,
    ensures
        tidy(board),
        forall|tx: int, ty: int| #[trigger]
            board.terrain_at(tx, ty) == baked_terrain(terrain, tx, ty),
        forall|tx: int, ty: int| #[trigger] board.owner_at(tx, ty) is None,
        forall|tx: int, ty: int| on_map(tx, ty) ==> #[trigger] board.has_tile(tx, ty),
        counts(board, player),
        tracks(board, player),
{
    assert forall|tx: int, ty: int| on_map(tx, ty) implies #[trigger] board.row_at(tx, ty) is Some
        && row_terrain(board.row_at(tx, ty)->Some_0, tx, ty) == baked_terrain(terrain, tx, ty)
        && row_owner(board.row_at(tx, ty)->Some_0, tx, ty) is None && cell_of(tx, ty)
        < board.row_at(tx, ty)->Some_0.owners.len() by {
        lemma_chunk_in_range(tx, ty);
        let index = chunk_index(tx / CHUNK_SIZE as int, ty / CHUNK_SIZE as int);
        lemma_chunk_key(board.match_id, index);
        lemma_tile_cell(tx, ty);
        assert(board.rows.contains_key(chunk_key(board.match_id, index) as u64));
    }
    assert forall|tx: int, ty: int| #[trigger]
        board.terrain_at(tx, ty) == baked_terrain(terrain, tx, ty) by {
        assert(on_map(tx, ty) ==> board.row_at(tx, ty) is Some);
    }
    assert forall|tx: int, ty: int| #[trigger] board.owner_at(tx, ty) is None by {
        assert(on_map(tx, ty) ==> board.row_at(tx, ty) is Some);
    }
    assert forall|tx: int, ty: int| on_map(tx, ty) implies #[trigger] board.has_tile(tx, ty) by {
        assert(board.row_at(tx, ty) is Some);
    }
    assert(holdings(board, player.id) =~= Set::empty());
}

} // verus!
