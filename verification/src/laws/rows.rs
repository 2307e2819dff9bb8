//! What rows, bytes and numbers stand for.

use vstd::prelude::*;

use crate::chunks::{lemma_claimed, owner_of_byte, row_claimed, row_owner, row_terrain, Board};
use crate::error::GameError;
use crate::grid::{
    cell_of, chunk_index, chunk_key, chunk_tile, distance_squared, lemma_chunk_in_range,
    lemma_chunk_key, on_map, tile_chunk_key,
};
use crate::players::{chunks_with, chunks_without, is_human, with_tile, without_tile};
use crate::quantity::{one_quantity, zero_quantity, Quantity};
use crate::queue::{comes_first, stored_entries};
use crate::rng::{seed_after, seed_of};
use crate::rounding::{lemma_rounded_near, rounded, spacing};
use crate::tables::{ChunkView, Identity, Player, PlayerView};
use crate::territory::{lemma_chunks_gain, lemma_chunks_with, lemma_chunks_without};

verus! {

/// Does the pattern stand for a number: of either sign, up to infinity?
pub open spec fn is_number(q: Quantity) -> bool {
    q.bits <= 0x7F80_0000 || 0x8000_0000 <= q.bits <= 0xFF80_0000
}

/// Quantities are ordered as numbers in single precision are: by their patterns where both are
/// positive, the other way round where both are negative, negative before positive, the two zeros
/// equal, and never where one is no number.
pub proof fn lemma_quantity_order(a: Quantity, b: Quantity)
    ensures
        !is_number(a) || !is_number(b) ==> !a.lt_spec(b),
        is_number(a) && is_number(b) ==> {
            &&& a.bits < 0x8000_0000 && b.bits < 0x8000_0000 ==> (a.lt_spec(b) <==> a.bits < b.bits)
            &&& a.bits >= 0x8000_0000 && b.bits >= 0x8000_0000 ==> (a.lt_spec(b) <==> b.bits
                < a.bits)
            &&& a.bits >= 0x8000_0000 && b.bits < 0x8000_0000 ==> (a.lt_spec(b) <==> a.bits
                != 0x8000_0000 || b.bits != 0)
            &&& a.bits < 0x8000_0000 && b.bits >= 0x8000_0000 ==> !a.lt_spec(b)
        },
        zero_quantity().bits == 0,
        one_quantity().bits == 0x3F80_0000,
{
}

/// The smaller of a quantity and a limit, the limit where the quantity is no number.
pub proof fn lemma_quantity_limit(a: Quantity, limit: Quantity)
    ensures
        a.at_most_spec(limit) == a || a.at_most_spec(limit) == limit,
        !is_number(a) ==> a.at_most_spec(limit) == limit,
        !limit.lt_spec(a.at_most_spec(limit)),
        is_number(a) && !limit.lt_spec(a) ==> a.at_most_spec(limit) == a,
{
}

/// A byte names the player of that number, and 255 nobody.
pub proof fn lemma_owner_byte(byte: u8)
    ensures
        byte == 255 ==> owner_of_byte(byte) is None,
        byte != 255 ==> owner_of_byte(byte) is Some && owner_of_byte(byte)->Some_0 == byte,
{
}

/// A board reads a tile of the map from the row of its chunk: the row with the match in the upper half
/// of its id and the chunk's place, 43 in a line, in the lower; there the byte of the tile's line and
/// column, 32 in a line. Off the map and without a row there is ocean that nobody holds.
pub proof fn lemma_board_reads(board: Board, tx: int, ty: int, id: u64)
    requires
        0 <= tx < 1350 && 0 <= ty < 675 ==> id as int == (board.match_id as int % 0x1_0000_0000)
            * 0x1_0000_0000 + (ty / 32) * 43 + tx / 32,
    ensures
        ({
            let inside = 0 <= tx < 1350 && 0 <= ty < 675;
            let known = inside && board.rows.contains_key(id);
            let cell = (ty % 32) * 32 + tx % 32;
            let owners = board.rows[id].owners;
            let terrain = board.rows[id].terrain;
            &&& known && cell < terrain.len() ==> board.terrain_at(tx, ty) == terrain[cell]
            &&& !known || cell >= terrain.len() ==> board.terrain_at(tx, ty) == 0
            &&& board.is_land(tx, ty) <==> board.terrain_at(tx, ty) != 0
            &&& board.has_tile(tx, ty) <==> known && cell < owners.len()
            &&& board.has_tile(tx, ty) && owners[cell] != 255 ==> board.owner_at(tx, ty) == Some(
                owners[cell] as u32,
            )
            &&& !board.has_tile(tx, ty) || owners[cell] == 255 ==> board.owner_at(tx, ty) is None
            &&& inside ==> tile_chunk_key(board.match_id, tx, ty) == id
        }),
{
    if 0 <= tx < 1350 && 0 <= ty < 675 {
        lemma_chunk_in_range(tx, ty);
        lemma_chunk_key(board.match_id, (ty / 32) * 43 + tx / 32);
    }
}

/// A row reads a tile from the byte of the tile's line and column.
pub proof fn lemma_row_reads(row: ChunkView, tx: int, ty: int)
    requires
        0 <= tx,
        0 <= ty,
    ensures
        ({
            let cell = (ty % 32) * 32 + tx % 32;
            &&& cell < row.terrain.len() ==> row_terrain(row, tx, ty) == row.terrain[cell]
            &&& cell >= row.terrain.len() ==> row_terrain(row, tx, ty) == 0
            &&& cell < row.owners.len() && row.owners[cell] != 255 ==> row_owner(row, tx, ty)
                == Some(row.owners[cell] as u32)
            &&& cell >= row.owners.len() || row.owners[cell] == 255 ==> row_owner(
                row,
                tx,
                ty,
            ) is None
        }),
{
}

/// A row that gives a tile to a player changes the byte of that tile to the low byte of the player's
/// number, and nothing else.
pub proof fn lemma_row_writes(row: ChunkView, tx: int, ty: int, owner: u32, other: int)
    requires
        0 <= tx,
        0 <= ty,
        0 <= other < row.owners.len(),
    ensures
        ({
            let cell = (ty % 32) * 32 + tx % 32;
            let after = row_claimed(row, tx, ty, owner);
            &&& after.owners.len() == row.owners.len()
            &&& other == cell ==> after.owners[other] == owner % 256
            &&& other != cell ==> after.owners[other] == row.owners[other]
            &&& after == (ChunkView { owners: after.owners, ..row })
        }),
{
    assert(owner as u8 == owner % 256) by (bit_vector);
}

/// A tile that a board gives to a player is that player's, every other tile keeps its holder, and no
/// terrain changes.
pub proof fn lemma_board_writes(board: Board, tx: int, ty: int, owner: u32, ux: int, uy: int)
    requires
        owner < 255,
    ensures
        ({
            let after = board.claimed(tx, ty, owner);
            &&& after.match_id == board.match_id
            &&& board.has_tile(tx, ty) ==> after.owner_at(tx, ty) == Some(owner)
            &&& (ux, uy) != (tx, ty) ==> after.owner_at(ux, uy) == board.owner_at(ux, uy)
            &&& after.terrain_at(ux, uy) == board.terrain_at(ux, uy)
        }),
{
    lemma_claimed(board, tx, ty, owner, tx, ty);
    lemma_claimed(board, tx, ty, owner, ux, uy);
}

/// A row counts as written if a tile of it has changed hands, and only then.
pub proof fn lemma_written(board: Board, dirty: Set<u64>, tx: int, ty: int, owner: u32, id: u64)
    ensures
        ({
            let after = board.written(dirty, tx, ty, owner);
            let key = tile_chunk_key(board.match_id, tx, ty);
            &&& dirty.contains(id) ==> after.contains(id)
            &&& id != key ==> (after.contains(id) <==> dirty.contains(id))
            &&& after.contains(key) <==> dirty.contains(key) || (board.has_tile(tx, ty)
                && board.rows[key].owners[(ty % 32) * 32 + tx % 32] != owner)
            &&& owner < 255 ==> (after.contains(key) <==> dirty.contains(key) || (board.has_tile(
                tx,
                ty,
            ) && board.owner_at(tx, ty) != Some(owner)))
        }),
{
}

/// A chunk has a tile of a player if some byte of its row names the player.
pub proof fn lemma_chunk_has_owner(board: Board, chunk_id: u64, owner: u32)
    requires
        owner < 256,
    ensures
        board.chunk_has_owner(chunk_id, owner) <==> board.rows.contains_key(chunk_id) && exists|
            i: int,
        |
            0 <= i < board.rows[chunk_id].owners.len() && (
            #[trigger] board.rows[chunk_id].owners[i]) == owner,
{
    if board.rows.contains_key(chunk_id) {
        let owners = board.rows[chunk_id].owners;
        if owners.contains(owner as u8) {
            let i = choose|i: int| 0 <= i < owners.len() && owners[i] == owner as u8;
            assert(owners[i] == owner);
        }
        if exists|i: int| 0 <= i < owners.len() && (#[trigger] owners[i]) == owner {
            let i = choose|i: int| 0 <= i < owners.len() && (#[trigger] owners[i]) == owner;
            assert(owners[i] == owner as u8);
        }
    }
}

/// The map is 1350 tiles wide and 675 high, cut into squares of 32 by 32, 43 of them in a line.
pub proof fn lemma_map(tx: int, ty: int, match_id: u64, index: int, cell: int)
    ensures
        on_map(tx, ty) <==> 0 <= tx < 1350 && 0 <= ty < 675,
        cell_of(tx, ty) == (ty % 32) * 32 + tx % 32,
        chunk_index(tx, ty) == ty * 43 + tx,
        chunk_key(match_id, index) == (match_id as int % 0x1_0000_0000) * 0x1_0000_0000 + index,
        chunk_tile(index, cell).0 == (index % 43) * 32 + cell % 32,
        chunk_tile(index, cell).1 == (index / 43) * 32 + cell / 32,
{
}

/// Distances are nothing from a point to itself, the same both ways, and grow as squares do: by twice
/// the way along an axis and one more for every further tile.
pub proof fn lemma_distance(a: (u32, u32), b: (u32, u32))
    requires
        a.0 < u32::MAX,
        a.1 < u32::MAX,
    ensures
        distance_squared(a, a) == 0,
        distance_squared(a, b) == distance_squared(b, a),
        distance_squared(((a.0 + 1) as u32, a.1), b) == distance_squared(a, b) + 2 * (a.0 - b.0)
            + 1,
        distance_squared((a.0, (a.1 + 1) as u32), b) == distance_squared(a, b) + 2 * (a.1 - b.1)
            + 1,
{
    let dx = a.0 - b.0;
    let dy = a.1 - b.1;
    let zx = a.0 - a.0;
    let zy = a.1 - a.1;
    assert(zx * zx == 0 && zy * zy == 0) by (nonlinear_arith)
        requires
            zx == 0,
            zy == 0,
    ;
    assert(dx * dx == (-dx) * (-dx)) by (nonlinear_arith);
    assert(dy * dy == (-dy) * (-dy)) by (nonlinear_arith);
    assert((dx + 1) * (dx + 1) == dx * dx + 2 * dx + 1) by (nonlinear_arith);
    assert((dy + 1) * (dy + 1) == dy * dy + 2 * dy + 1) by (nonlinear_arith);
    assert(((a.0 + 1) as u32) - b.0 == dx + 1);
    assert(((a.1 + 1) as u32) - b.1 == dy + 1);
}

/// Seeds are what their match, tick and salt add up to, each in its own stride, in 64 bits: from nothing
/// at all zero, and further by a stride for each match, tick and salt further.
pub proof fn lemma_seed_strides(match_id: u64, tick: u64, salt: u64)
    requires
        match_id < u64::MAX,
        tick < u64::MAX,
        salt < u64::MAX,
    ensures
        seed_of(0, 0, 0) == 0,
        (seed_of((match_id + 1) as u64, tick, salt) - seed_of(match_id, tick, salt)
            - 6364136223846793005) % 0x1_0000_0000_0000_0000 == 0,
        (seed_of(match_id, (tick + 1) as u64, salt) - seed_of(match_id, tick, salt)
            - 1442695040888963407) % 0x1_0000_0000_0000_0000 == 0,
        (seed_of(match_id, tick, (salt + 1) as u64) - seed_of(match_id, tick, salt) - 1)
            % 0x1_0000_0000_0000_0000 == 0,
{
    let n = match_id * 6364136223846793005 + tick * 1442695040888963407 + salt;
    lemma_stride(n, n + 6364136223846793005);
    lemma_stride(n, n + 1442695040888963407);
    lemma_stride(n, n + 1);
}

/// Remainders differ as their numbers do.
proof fn lemma_stride(a: int, b: int)
    ensures
        (b % 0x1_0000_0000_0000_0000 - a % 0x1_0000_0000_0000_0000 - (b - a))
            % 0x1_0000_0000_0000_0000 == 0,
{
}

/// Stepping a seed of zero gives one, and of the next seed a stride more, in 64 bits.
pub proof fn lemma_step_strides(seed: u64)
    requires
        seed < u64::MAX,
    ensures
        seed_after(0) == 1,
        (seed_after((seed + 1) as u64) - seed_after(seed) - 6364136223846793005)
            % 0x1_0000_0000_0000_0000 == 0,
{
    let n = seed * 6364136223846793005 + 1;
    lemma_stride(n, n + 6364136223846793005);
}

/// A lower priority value comes first, and of two that are equal the lower tile.
pub proof fn lemma_order(a: (i32, u32), b: (i32, u32))
    ensures
        a.0 < b.0 ==> comes_first(a, b) && !comes_first(b, a),
        a.0 == b.0 && a.1 < b.1 ==> comes_first(a, b) && !comes_first(b, a),
        a == b ==> comes_first(a, b),
{
}

/// Stored tiles and priorities stand for entries one by one; a tile without a priority has zero.
pub proof fn lemma_stored(tiles: Seq<u32>, priorities: Seq<i32>, i: int)
    requires
        0 <= i < tiles.len(),
    ensures
        stored_entries(tiles, priorities).len() == tiles.len(),
        stored_entries(tiles, priorities)[i].1 == tiles[i],
        i < priorities.len() ==> stored_entries(tiles, priorities)[i].0 == priorities[i],
        i >= priorities.len() ==> stored_entries(tiles, priorities)[i].0 == 0,
{
}

/// Rounding to single precision leaves 24 bits: numbers below 2^24 stay, larger ones move by no more
/// than half the distance of two numbers with 24 bits.
pub proof fn lemma_rounding(n: nat)
    ensures
        n < 0x100_0000 ==> rounded(n) == n,
        2 * rounded(n) <= 2 * n + spacing(n),
        2 * n <= 2 * rounded(n) + spacing(n),
        n < 0x100_0000 ==> spacing(n) == 1,
        n >= 0x100_0000 ==> spacing(n) == 2 * spacing(n / 2),
{
    lemma_rounded_near(n);
}

/// Rounding gives a multiple of the distance of two numbers with 24 bits, and halfway between two the one
/// whose last bit is zero.
pub proof fn lemma_rounding_even(n: nat)
    requires
        spacing(n) > 0,
    ensures
        ({
            let unit = spacing(n);
            let steps = rounded(n) / unit;
            &&& rounded(n) == steps * unit
            &&& 2 * (n % unit) == unit ==> steps % 2 == 0
        }),
{
    let unit = spacing(n);
    let below = n / unit;
    vstd::arithmetic::div_mod::lemma_div_multiples_vanish(below as int, unit as int);
    vstd::arithmetic::div_mod::lemma_div_multiples_vanish(below as int + 1, unit as int);
    assert(below * unit == unit * below) by (nonlinear_arith);
    assert((below + 1) * unit == unit * (below + 1)) by (nonlinear_arith);
}

/// A player that gains a tile has one more and tracks its chunk, where there is room for it; nothing
/// else changes.
pub proof fn lemma_gain(player: PlayerView, chunk_id: u64)
    requires
        player.tiles < u32::MAX,
        player.owned_chunks.no_duplicates(),
    ensures
        ({
            let after = with_tile(player, chunk_id);
            &&& after.tiles == player.tiles + 1
            &&& player.owned_chunks.len() < 1024 ==> forall|c: u64| #[trigger]
                after.owned_chunks.contains(c) <==> player.owned_chunks.contains(c) || c == chunk_id
            &&& player.owned_chunks.len() >= 1024 ==> after.owned_chunks == player.owned_chunks
            &&& after.owned_chunks.no_duplicates()
            &&& after == (PlayerView {
                tiles: after.tiles,
                owned_chunks: after.owned_chunks,
                ..player
            })
        }),
{
    if player.owned_chunks.len() < 1024 {
        lemma_chunks_with(player.owned_chunks, chunk_id);
        lemma_chunks_gain(player.owned_chunks, chunk_id);
    }
}

/// A defender that loses a tile has one less, forgets the chunk if it has no other tile there, and dies
/// with fewer than a hundred tiles; nothing else changes.
pub proof fn lemma_loss(player: PlayerView, chunk_id: u64, holds_others: bool)
    requires
        player.owned_chunks.no_duplicates(),
    ensures
        ({
            let after = without_tile(player, chunk_id, holds_others);
            &&& player.tiles > 0 ==> after.tiles == player.tiles - 1
            &&& player.tiles == 0 ==> after.tiles == 0
            &&& holds_others ==> after.owned_chunks == player.owned_chunks
            &&& !holds_others ==> forall|c: u64| #[trigger]
                after.owned_chunks.contains(c) <==> player.owned_chunks.contains(c) && c != chunk_id
            &&& after.owned_chunks.no_duplicates()
            &&& after.alive <==> player.alive && after.tiles >= 100
            &&& after == (PlayerView {
                tiles: after.tiles,
                owned_chunks: after.owned_chunks,
                alive: after.alive,
                ..player
            })
        }),
{
    lemma_chunks_without(player.owned_chunks, chunk_id);
}

/// No more than 1024 chunks are tracked, and a chunk that is not tracked is not missed.
pub proof fn lemma_tracking_limits(chunks: Seq<u64>, chunk_id: u64)
    ensures
        chunks.len() >= 1024 ==> chunks_with(chunks, chunk_id) == chunks,
        chunks.len() <= 1024 ==> chunks_with(chunks, chunk_id).len() <= 1024,
        !chunks.contains(chunk_id) ==> chunks_without(chunks, chunk_id) == chunks,
{
    chunks.index_of_first_ensures(chunk_id);
}

/// A row is a client's if it has the client's identity and is no bot's.
pub proof fn lemma_client_row(player: Player, sender: Identity)
    ensures
        is_human(player, sender) <==> player.identity == sender && !player.is_bot,
{
}

/// Every refusal is answered in words of its own.
pub proof fn lemma_answers(e: GameError)
    ensures
        e is InvalidDifficulty ==> e.text()
            == "difficulty must be 0 (Easy), 1 (Normal), or 2 (Hard)"@,
        e is InvalidSpeed ==> e.text() == "speed_multiplier must be 1, 2, 4, 8, or 16"@,
        e is MatchNotFound ==> e.text() == "Match not found"@,
        e is NotInMatch ==> e.text() == "Not in match"@,
        e is MatchAlreadyStarted ==> e.text() == "Match already started"@,
        e is AlreadyStarted ==> e.text() == "Already started"@,
        e is MatchFull ==> e.text() == "Match full"@,
        e is MatchNotInPlay ==> e.text() == "Match not in play"@,
        e is CannotSpawnNow ==> e.text() == "Cannot spawn now"@,
        e is AlreadySpawned ==> e.text() == "Already spawned"@,
        e is MustSpawnOnLand ==> e.text() == "Must spawn on land"@,
        e is TooClose ==> e.text() == "Too close to another player"@,
        e is TileClaimed ==> e.text() == "Must spawn on unclaimed land"@,
        e is PlayerNotFound ==> e.text() == "Player not found"@,
        e is InvalidBot ==> e.text() == "Invalid bot"@,
        e is CannotAttackYourself ==> e.text() == "Cannot attack yourself"@,
        e is AttackerNotFound ==> e.text() == "Attacker not found"@,
        e is Eliminated ==> e.text() == "Eliminated"@,
        e is NotYetSpawned ==> e.text() == "Not yet spawned"@,
        e is TargetNotFound ==> e.text() == "Target not found"@,
        e is TargetNotInMatch ==> e.text() == "Target not in match"@,
        e is TargetIsDead ==> e.text() == "Target is dead"@,
        e is NotEnoughTroops ==> e.text() == "Not enough troops"@,
        e is NoBorderingWilderness ==> e.text() == "No bordering wilderness"@,
        e is NoBorderWithTarget ==> e.text() == "No border with target"@,
        e is NoActiveAttack ==> e.text() == "No active attack"@,
        e is MustBuildOnOwnTile ==> e.text() == "Must build on your own tile"@,
        e is CityAlreadyExists ==> e.text() == "City already exists here"@,
        e is NotEnoughGold ==> e.text() == "Not enough gold"@,
{
}

/// A row that is taken in is there, unless there was one with its id, which stays. No other row changes.
pub proof fn lemma_loaded(board: Board, id: u64, row: ChunkView, other: u64)
    ensures
        ({
            let after = board.loaded(id, row);
            &&& after.match_id == board.match_id
            &&& after.rows.contains_key(id)
            &&& board.rows.contains_key(id) ==> after.rows[id] == board.rows[id]
            &&& !board.rows.contains_key(id) ==> after.rows[id] == row
            &&& other != id ==> (after.rows.contains_key(other) <==> board.rows.contains_key(other))
            &&& other != id && board.rows.contains_key(other) ==> after.rows[other]
                == board.rows[other]
        }),
{
}

} // verus!
