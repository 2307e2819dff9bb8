//! What an attack can take, where its front runs, and in which order it goes on.

use vstd::prelude::*;

use crate::chunks::Board;
use crate::front::{
    attack_border, beside, capturable, held_neighbors, lemma_border_complete, lemma_border_found,
    lemma_border_sound, met_at, of_match, on_front, prey_around, prey_beside, scan_meets, scan_prey,
    tile_at, tile_priority,
};
use crate::grid::{lemma_tile_index, tile_chunk_key};
use crate::rng::seed_of;
use crate::rounding::{lemma_rounded_exact, rounded};

verus! {

/// Who must hold a tile that an attack on this target takes: nobody for the wilderness, else the
/// target.
pub open spec fn loser(target: u32) -> Option<u32> {
    if target == 0 {
        None
    } else {
        Some(target)
    }
}

/// Do two points lie side by side?
pub open spec fn adjacent(ax: int, ay: int, bx: int, by: int) -> bool {
    ||| ax == bx && (by == ay + 1 || by == ay - 1)
    ||| ay == by && (bx == ax + 1 || bx == ax - 1)
}

/// Does a player hold one of the four tiles around a point?
pub open spec fn touches(board: Board, player: u32, x: int, y: int) -> bool {
    ||| board.owner_at(x + 1, y) == Some(player)
    ||| board.owner_at(x - 1, y) == Some(player)
    ||| board.owner_at(x, y + 1) == Some(player)
    ||| board.owner_at(x, y - 1) == Some(player)
}

/// One if so, else zero.
pub open spec fn one_if(b: bool) -> int {
    if b {
        1
    } else {
        0
    }
}

/// An attack takes a tile from its loser and from nobody else: attacks on the wilderness take
/// unclaimed land only, attacks on a player that player's tiles only.
pub proof fn lemma_takes_from_loser_only(target: u32, owner: Option<u32>)
    ensures
        capturable(target, owner) <==> owner == loser(target),
{
}

/// The four neighbours of a point are the points beside it, each of them once.
pub proof fn lemma_neighbours(ax: int, ay: int, bx: int, by: int)
    ensures
        adjacent(ax, ay, bx, by) <==> exists|d: int|
            0 <= d < 4 && #[trigger] beside(ax, ay, d) == (bx, by),
        forall|d: int, e: int|
            0 <= d < e < 4 ==> #[trigger] beside(ax, ay, d) != #[trigger] beside(ax, ay, e),
{
    if adjacent(ax, ay, bx, by) {
        let d: int = if bx == ax + 1 {
            0
        } else if bx == ax - 1 {
            1
        } else if by == ay + 1 {
            2
        } else {
            3
        };
        assert(beside(ax, ay, d) == (bx, by));
    }
}

/// How many neighbours of a tile a player holds: one for each of the four that is its own.
pub proof fn lemma_held_count(board: Board, player: u32, x: int, y: int)
    ensures
        held_neighbors(board, player, x, y, 4) == one_if(
            board.owner_at(x + 1, y) == Some(player),
        ) + one_if(board.owner_at(x - 1, y) == Some(player)) + one_if(
            board.owner_at(x, y + 1) == Some(player),
        ) + one_if(board.owner_at(x, y - 1) == Some(player)),
{
    reveal_with_fuel(held_neighbors, 5);
}

/// What the terrain adds to the factor of a priority, in quarters.
pub open spec fn hardness(terrain: u8) -> int {
    if terrain >= 3 {
        4
    } else if terrain == 2 {
        3
    } else {
        2 * terrain
    }
}

/// The priority of a tile, as long as ticks are small enough for single precision to be exact: the
/// tick, plus a jitter between 10 and 16 times a factor. The factor is one, less a half for each
/// neighbour in the attacker's hands, plus a half on plains, three quarters on highland and one in
/// mountains. Fractions are cut towards zero.
pub proof fn lemma_priority_value(board: Board, attacker: u32, tx: u32, ty: u32, tick: u64, held: int)
    requires
        held == one_if(board.owner_at(tx + 1, ty as int) == Some(attacker)) + one_if(
            board.owner_at(tx - 1, ty as int) == Some(attacker),
        ) + one_if(board.owner_at(tx as int, ty + 1) == Some(attacker)) + one_if(
            board.owner_at(tx as int, ty - 1) == Some(attacker),
        ),
        tick <= 4_000_000,
    ensures
        ({
            let jitter = 10 + seed_of(tx as u64, ty as u64, tick) as int % 7;
            let factor = 4 - 2 * held + hardness(board.terrain_at(tx as int, ty as int));
            let sum = 4 * tick + jitter * factor;
            let priority = tile_priority(board, attacker, tx as int, ty as int, tick);
            &&& sum >= 0 ==> 4 * priority <= sum < 4 * priority + 4
            &&& sum < 0 ==> 4 * priority - 4 < sum <= 4 * priority
        }),
{
    lemma_held_count(board, attacker, tx as int, ty as int);
    let jitter = 10 + seed_of(tx as u64, ty as u64, tick) as int % 7;
    let factor = 4 - 2 * held + hardness(board.terrain_at(tx as int, ty as int));
    assert(-64 <= jitter * factor <= 128) by (nonlinear_arith)
        requires
            10 <= jitter <= 16,
            -4 <= factor <= 8,
    ;
    let sum = 4 * tick + jitter * factor;
    lemma_rounded_exact(tick as nat);
    if sum >= 0 {
        lemma_rounded_exact(sum as nat);
        assert(rounded(sum as nat) == sum);
    } else {
        lemma_rounded_exact((-sum) as nat);
        assert(rounded((-sum) as nat) == -sum);
    }
}

/// The priority of a tile at any tick: the same sum, rounded to single precision after the tick has been,
/// cut towards zero, and at most the largest priority.
pub proof fn lemma_priority_at_any_tick(
    board: Board,
    attacker: u32,
    tx: u32,
    ty: u32,
    tick: u64,
    held: int,
)
    requires
        held == one_if(board.owner_at(tx + 1, ty as int) == Some(attacker)) + one_if(
            board.owner_at(tx - 1, ty as int) == Some(attacker),
        ) + one_if(board.owner_at(tx as int, ty + 1) == Some(attacker)) + one_if(
            board.owner_at(tx as int, ty - 1) == Some(attacker),
        ),
    ensures
        ({
            let jitter = 10 + seed_of(tx as u64, ty as u64, tick) as int % 7;
            let factor = 4 - 2 * held + hardness(board.terrain_at(tx as int, ty as int));
            let sum = 4 * rounded(tick as nat) + jitter * factor;
            let priority = tile_priority(board, attacker, tx as int, ty as int, tick);
            &&& sum >= 0 && rounded(sum as nat) / 4 <= i32::MAX ==> priority == rounded(sum as nat)
                / 4
            &&& sum >= 0 && rounded(sum as nat) / 4 > i32::MAX ==> priority == i32::MAX
            &&& sum < 0 ==> priority == -(rounded((-sum) as nat) / 4)
        }),
{
    lemma_held_count(board, attacker, tx as int, ty as int);
    let jitter = 10 + seed_of(tx as u64, ty as u64, tick) as int % 7;
    let factor = 4 - 2 * held + hardness(board.terrain_at(tx as int, ty as int));
    assert(-64 <= jitter * factor <= 128) by (nonlinear_arith)
        requires
            10 <= jitter <= 16,
            -4 <= factor <= 8,
    ;
    let sum = 4 * rounded(tick as nat) + jitter * factor;
    if sum < 0 {
        lemma_rounded_exact((-sum) as nat);
    }
}

/// A border lists no tile twice, and at most 4096 tiles.
pub proof fn lemma_border_limit(
    board: Board,
    attacker: u32,
    target: u32,
    tick: u64,
    chunks: Seq<u64>,
    i: int,
    j: int,
)
    ensures
        ({
            let border = attack_border(board, attacker, target, tick, chunks);
            &&& border.len() <= 4096
            &&& 0 <= i < j < border.len() ==> border[i].0 != border[j].0
        }),
{
    lemma_border_found(board, attacker, target, tick, chunks, chunks.len() as int * 4096);
}

/// A border that is not full lists, with its priority, every tile of the map that is not ocean,
/// whatever its kind of land, whose owner is the attack's loser, and that lies beside a tile of the
/// attacker in a tracked chunk.
pub proof fn lemma_border_lists_front(
    board: Board,
    attacker: u32,
    target: u32,
    tick: u64,
    chunks: Seq<u64>,
    tx: int,
    ty: int,
    nx: int,
    ny: int,
)
    requires
        0 <= tx < 1350,
        0 <= ty < 675,
        0 <= nx < 1350,
        0 <= ny < 675,
        adjacent(tx, ty, nx, ny),
        board.owner_at(tx, ty) == Some(attacker),
        chunks.contains(tile_chunk_key(board.match_id, tx, ty)),
        board.terrain_at(nx, ny) != 0,
        board.owner_at(nx, ny) == loser(target),
        attack_border(board, attacker, target, tick, chunks).len() < 4096,
    ensures
        ({
            let border = attack_border(board, attacker, target, tick, chunks);
            let entry = ((ny * 1350 + nx) as u32, tile_priority(board, attacker, nx, ny, tick));
            border.contains(entry)
        }),
{
    let border = attack_border(board, attacker, target, tick, chunks);
    let n = chunks.len() as int * 4096;
    lemma_neighbours(tx, ty, nx, ny);
    let d = choose|d: int| 0 <= d < 4 && #[trigger] beside(tx, ty, d) == (nx, ny);
    assert(prey_beside(board, target, tx, ty, d) == Some((nx, ny)));
    lemma_border_complete(board, attacker, target, tick, chunks, tx, ty, d);
    let tile = tile_at(nx, ny);
    let i = choose|i: int| 0 <= i < border.len() && (#[trigger] border[i]).0 == tile;
    lemma_border_found(board, attacker, target, tick, chunks, n);
    assert(scan_meets(board, attacker, target, tick, chunks, n, border[i]));
    let k = choose|k: int|
        0 <= k < n && met_at(
            board,
            attacker,
            target,
            tick,
            #[trigger] scan_prey(board, attacker, target, chunks, k),
            border[i],
        );
    let (px, py) = scan_prey(board, attacker, target, chunks, k)->Some_0;
    lemma_tile_index(px, py);
    lemma_tile_index(nx, ny);
    assert(px == nx && py == ny);
}

/// A border lists nothing else: every tile in it is on the map, not ocean, held by the attack's
/// loser, and beside a tile of the attacker.
pub proof fn lemma_border_lists_only_front(
    board: Board,
    attacker: u32,
    target: u32,
    tick: u64,
    chunks: Seq<u64>,
    i: int,
)
    requires
        attacker < 255,
        of_match(board.match_id, chunks),
        0 <= i < attack_border(board, attacker, target, tick, chunks).len(),
    ensures
        ({
            let tile = attack_border(board, attacker, target, tick, chunks)[i].0 as int;
            &&& tile < 911_250
            &&& board.terrain_at(tile % 1350, tile / 1350) != 0
            &&& board.owner_at(tile % 1350, tile / 1350) == loser(target)
            &&& touches(board, attacker, tile % 1350, tile / 1350)
        }),
{
    lemma_border_sound(board, attacker, target, tick, chunks);
    let border = attack_border(board, attacker, target, tick, chunks);
    assert(on_front(board, attacker, target, border[i].0));
}

/// Around a tile, all neighbours that are not ocean and held by the attack's loser can be taken, with
/// their priorities, and no others.
pub proof fn lemma_prey_is_front(
    board: Board,
    attacker: u32,
    target: u32,
    tx: int,
    ty: int,
    tick: u64,
    nx: int,
    ny: int,
)
    requires
        0 <= nx < 1350,
        0 <= ny < 675,
    ensures
        ({
            let prey = prey_around(board, attacker, target, tx, ty, tick, 4);
            let entry = ((ny * 1350 + nx) as u32, tile_priority(board, attacker, nx, ny, tick));
            &&& adjacent(tx, ty, nx, ny) && board.terrain_at(nx, ny) != 0 && board.owner_at(nx, ny)
                == loser(target) ==> prey.contains(entry)
            &&& (exists|i: int| 0 <= i < prey.len() && (#[trigger] prey[i]).0 == entry.0)
                ==> adjacent(tx, ty, nx, ny) && board.terrain_at(nx, ny) != 0 && board.owner_at(
                nx,
                ny,
            ) == loser(target)
        }),
{
    let prey = prey_around(board, attacker, target, tx, ty, tick, 4);
    let entry = ((ny * 1350 + nx) as u32, tile_priority(board, attacker, nx, ny, tick));
    lemma_prey_members(board, attacker, target, tx, ty, tick, 4);
    lemma_tile_index(nx, ny);
    if adjacent(tx, ty, nx, ny) && board.terrain_at(nx, ny) != 0 && board.owner_at(nx, ny) == loser(
        target,
    ) {
        lemma_neighbours(tx, ty, nx, ny);
        let d = choose|d: int| 0 <= d < 4 && #[trigger] beside(tx, ty, d) == (nx, ny);
        assert(prey_at(board, target, tx, ty, d, entry.0));
    }
    if exists|i: int| 0 <= i < prey.len() && (#[trigger] prey[i]).0 == entry.0 {
        let i = choose|i: int| 0 <= i < prey.len() && (#[trigger] prey[i]).0 == entry.0;
        assert(from_some(board, target, tx, ty, 4, prey[i].0));
        let d = choose|d: int|
            0 <= d < 4 && #[trigger] prey_at(board, target, tx, ty, d, entry.0);
        let (px, py) = beside(tx, ty, d);
        lemma_tile_index(px, py);
        assert(px == nx && py == ny);
        lemma_neighbours(tx, ty, px, py);
    }
}

/// Is this the tile that can be taken in one direction from a tile?
pub open spec fn prey_at(board: Board, target: u32, tx: int, ty: int, d: int, tile: u32) -> bool {
    prey_beside(board, target, tx, ty, d) is Some && tile == tile_at(
        beside(tx, ty, d).0,
        beside(tx, ty, d).1,
    )
}

/// Prey lies on the map, and its direction is known by its tile.
proof fn lemma_prey_at(board: Board, target: u32, tx: int, ty: int, d: int, e: int, tile: u32)
    requires
        0 <= d < 4,
        0 <= e < 4,
        prey_at(board, target, tx, ty, d, tile),
        prey_at(board, target, tx, ty, e, tile),
    ensures
        d == e,
{
    let (ax, ay) = beside(tx, ty, d);
    let (bx, by) = beside(tx, ty, e);
    lemma_tile_index(ax, ay);
    lemma_tile_index(bx, by);
}

/// What the prey around a tile is made of: one entry for each direction that has some.
pub proof fn lemma_prey_members(
    board: Board,
    attacker: u32,
    target: u32,
    tx: int,
    ty: int,
    tick: u64,
    n: int,
)
    requires
        0 <= n <= 4,
    ensures
        ({
            let prey = prey_around(board, attacker, target, tx, ty, tick, n);
            &&& prey.len() <= n
            &&& forall|d: int, tile: u32|
                0 <= d < n && #[trigger] prey_at(board, target, tx, ty, d, tile) ==> prey.contains(
                    (
                        tile,
                        tile_priority(
                            board,
                            attacker,
                            beside(tx, ty, d).0,
                            beside(tx, ty, d).1,
                            tick,
                        ),
                    ),
                )
            &&& forall|i: int|
                0 <= i < prey.len() ==> from_some(board, target, tx, ty, n, (#[trigger] prey[i]).0)
            &&& forall|i: int, j: int|
                0 <= i < j < prey.len() ==> (#[trigger] prey[i]).0 != (#[trigger] prey[j]).0
        }),
    decreases n,
{
    if n > 0 {
        lemma_prey_members(board, attacker, target, tx, ty, tick, n - 1);
        let before = prey_around(board, attacker, target, tx, ty, tick, n - 1);
        let prey = prey_around(board, attacker, target, tx, ty, tick, n);
        assert forall|d: int, tile: u32|
            0 <= d < n && #[trigger] prey_at(board, target, tx, ty, d, tile) implies prey.contains(
            (
                tile,
                tile_priority(board, attacker, beside(tx, ty, d).0, beside(tx, ty, d).1, tick),
            ),
        ) by {
            let entry = (
                tile,
                tile_priority(board, attacker, beside(tx, ty, d).0, beside(tx, ty, d).1, tick),
            );
            if d < n - 1 {
                assert(before.contains(entry));
                let i = choose|i: int| 0 <= i < before.len() && before[i] == entry;
                assert(prey[i] == entry);
            } else {
                assert(prey[before.len() as int] == entry);
            }
        }
        assert forall|i: int| 0 <= i < prey.len() implies from_some(
            board,
            target,
            tx,
            ty,
            n,
            (#[trigger] prey[i]).0,
        ) by {
            if i < before.len() {
                assert(prey[i] == before[i]);
                let d = choose|d: int|
                    0 <= d < n - 1 && #[trigger] prey_at(board, target, tx, ty, d, before[i].0);
                assert(prey_at(board, target, tx, ty, d, prey[i].0));
            } else {
                assert(prey_at(board, target, tx, ty, n - 1, prey[i].0));
            }
        }
        assert forall|i: int, j: int| 0 <= i < j < prey.len() implies (#[trigger] prey[i]).0 != (
        #[trigger] prey[j]).0 by {
            assert(prey[i] == before[i]);
            if j < before.len() {
                assert(prey[j] == before[j]);
            } else if prey[i].0 == prey[j].0 {
                assert(prey_at(board, target, tx, ty, n - 1, prey[j].0));
                assert(from_some(board, target, tx, ty, n - 1, before[i].0));
                let d = choose|d: int|
                    0 <= d < n - 1 && #[trigger] prey_at(board, target, tx, ty, d, before[i].0);
                lemma_prey_at(board, target, tx, ty, d, n - 1, prey[j].0);
            }
        }
    }
}

/// Can this tile be taken in one of the first `n` directions?
pub open spec fn from_some(board: Board, target: u32, tx: int, ty: int, n: int, tile: u32) -> bool {
    exists|d: int| 0 <= d < n && #[trigger] prey_at(board, target, tx, ty, d, tile)
}

} // verus!
