//! What the moves and the fights of an attack come to.

use vstd::multiset::Multiset;
use vstd::prelude::*;

use crate::attack::{
    action_after, advanced, board_after, booked, comes_home, first_entry, fought, front_length,
    is_kept, keeps_fighting, narrowed, opened_run, queued, refund_share, resolved, spent,
    stores_run, widened, written_after, AttackAction, CombatOutcome, RunView,
};
use crate::chunks::Board;
use crate::conquest::{
    after_turns, lemma_border_without, lemma_first_entry_exists, lemma_queued, lemma_widened_front,
    Play, Turn,
};
use crate::front::{attack_border, holds_beside, prey_around, tile_priority, tiles_of};
use crate::grid::{lemma_tile_index, tile_chunk_key};
use crate::laws::fronts::{
    adjacent, lemma_prey_is_front, lemma_prey_members, loser, one_if, touches,
};
use crate::laws::rows::lemma_board_writes;
use crate::players::chunks_with;
use crate::quantity::Quantity;
use crate::queue::stored_entries;
use crate::rng::seed_of;
use crate::tables::{Attack, AttackView, Player, PlayerView};
use crate::territory::{lemma_chunks_gain, lemma_chunks_without};

verus! {

/// A quantity cut at zero, by its bits: what is below zero or no number becomes zero.
pub open spec fn cut(q: Quantity) -> u32 {
    if q.bits > 0x8000_0000 || (q.bits > 0x7F80_0000 && q.bits < 0x8000_0000) {
        0
    } else {
        q.bits
    }
}

/// Is the quantity above zero?
pub open spec fn positive(q: Quantity) -> bool {
    0 < q.bits <= 0x7F80_0000
}

/// Is the quantity below one?
pub open spec fn below_one(q: Quantity) -> bool {
    q.bits < 0x3F80_0000 || 0x8000_0000 <= q.bits <= 0xFF80_0000
}

/// Does a fight for a tile capture it: is there such a tile, in the hands of the attack's loser?
pub open spec fn captures(run: RunView, board: Board, tile: u32) -> bool {
    board.has_tile(tile as int % 1350, tile as int / 1350) && board.owner_at(
        tile as int % 1350,
        tile as int / 1350,
    ) == loser(run.attack.target)
}

/// Widening a front changes nothing but the border, its set and the queue.
proof fn lemma_widened_keeps(run: RunView, tiles: Seq<(u32, i32)>, n: int)
    ensures
        ({
            let after = widened(run, tiles, n);
            after == (RunView {
                attack: AttackView { border: after.attack.border, ..run.attack },
                queue: after.queue,
                border_set: after.border_set,
                ..run
            })
        }),
    decreases n,
{
    if n > 0 {
        lemma_widened_keeps(run, tiles, n - 1);
    }
}

/// After a fight, whoever the target is, the attack and the target have the troops that the fight left
/// them, cut at zero. Nothing else of the attack's row changes but its border, nothing of the
/// attacker's but its tiles and chunks, nothing of the target's but its troops, tiles, chunks and life.
pub proof fn lemma_fight_books_losses(run: RunView, board: Board, tile: u32, outcome: CombatOutcome)
    ensures
        ({
            let after = resolved(run, board, tile, outcome);
            &&& after.attack.troops.bits == cut(outcome.attack_troops)
            &&& after.attack == (AttackView {
                troops: after.attack.troops,
                border: after.attack.border,
                ..run.attack
            })
            &&& after.tick == run.tick
            &&& after.attacker == (PlayerView {
                tiles: after.attacker.tiles,
                owned_chunks: after.attacker.owned_chunks,
                ..run.attacker
            })
            &&& after.target is Some <==> run.target is Some
            &&& run.target is Some ==> {
                let before = run.target->Some_0;
                let target = after.target->Some_0;
                &&& target.troops.bits == cut(outcome.target_troops)
                &&& target == (PlayerView {
                    troops: target.troops,
                    tiles: target.tiles,
                    owned_chunks: target.owned_chunks,
                    alive: target.alive,
                    ..before
                })
            }
        }),
{
    let tx = tile as int % 1350;
    let ty = tile as int / 1350;
    let board2 = board.claimed(tx, ty, run.attacker.id);
    let start = fought(run, outcome);
    let held = narrowed(booked(start, board2, tx, ty), tile);
    let prey = prey_around(board2, run.attacker.id, run.attack.target, tx, ty, run.tick, 4);
    lemma_widened_keeps(held, prey, prey.len() as int);
    lemma_cut(outcome.attack_troops);
    lemma_cut(outcome.target_troops);
}

/// Cutting a quantity at zero.
pub proof fn lemma_cut(q: Quantity)
    ensures
        q.at_least_zero_spec().bits == cut(q),
{
}

/// A fight that captures its tile gives the attacker one tile more and the target one less, and a target
/// that is left with fewer than a hundred dies. The attacker then tracks the tile's chunk, where there is
/// room for it, and the target does not where no tile of its own is left in it; other chunks stay as
/// they were. A fight that captures nothing leaves tiles, chunks, border and queue as they are.
pub proof fn lemma_fight_moves_tiles(run: RunView, board: Board, tile: u32, outcome: CombatOutcome)
    requires
        run.attacker.tiles < u32::MAX,
    ensures
        ({
            let after = resolved(run, board, tile, outcome);
            let chunk = tile_chunk_key(board.match_id, tile as int % 1350, tile as int / 1350);
            let board2 = board.claimed(
                tile as int % 1350,
                tile as int / 1350,
                run.attacker.id,
            );
            &&& captures(run, board, tile) ==> {
                &&& after.attacker.tiles == run.attacker.tiles + 1
                &&& run.attacker.owned_chunks.len() < 1024
                    ==> after.attacker.owned_chunks.contains(chunk)
                &&& forall|c: u64|
                    c != chunk ==> (#[trigger] after.attacker.owned_chunks.contains(c)
                        <==> run.attacker.owned_chunks.contains(c))
                &&& run.target is Some ==> {
                    let before = run.target->Some_0;
                    let target = after.target->Some_0;
                    &&& before.tiles > 0 ==> target.tiles == before.tiles - 1
                    &&& before.tiles == 0 ==> target.tiles == 0
                    &&& target.alive <==> before.alive && target.tiles >= 100
                    &&& board2.chunk_has_owner(chunk, before.id) ==> target.owned_chunks
                        == before.owned_chunks
                    &&& !board2.chunk_has_owner(chunk, before.id)
                        && before.owned_chunks.no_duplicates() ==> forall|c: u64| #[trigger]
                        target.owned_chunks.contains(c) <==> before.owned_chunks.contains(c) && c
                            != chunk
                }
            }
            &&& !captures(run, board, tile) ==> {
                &&& after.attacker == run.attacker
                &&& after.attack.border == run.attack.border
                &&& after.queue == run.queue
                &&& after.border_set == run.border_set
                &&& run.target is Some ==> {
                    let before = run.target->Some_0;
                    let target = after.target->Some_0;
                    &&& target.tiles == before.tiles
                    &&& target.alive == before.alive
                    &&& target.owned_chunks == before.owned_chunks
                }
            }
        }),
{
    let tx = tile as int % 1350;
    let ty = tile as int / 1350;
    let board2 = board.claimed(tx, ty, run.attacker.id);
    let start = fought(run, outcome);
    let held = narrowed(booked(start, board2, tx, ty), tile);
    let prey = prey_around(board2, run.attacker.id, run.attack.target, tx, ty, run.tick, 4);
    lemma_widened_keeps(held, prey, prey.len() as int);
    let chunk = tile_chunk_key(board.match_id, tx, ty);
    if run.attacker.owned_chunks.len() < 1024 {
        lemma_chunks_gain(run.attacker.owned_chunks, chunk);
        let chunks = chunks_with(run.attacker.owned_chunks, chunk);
        assert forall|c: u64| c != chunk && #[trigger] chunks.contains(c) implies
            run.attacker.owned_chunks.contains(c) by {
            let i = choose|i: int| 0 <= i < chunks.len() && chunks[i] == c;
            assert(run.attacker.owned_chunks[i] == c);
        }
    }
    if run.target is Some && run.target->Some_0.owned_chunks.no_duplicates() {
        lemma_chunks_without(run.target->Some_0.owned_chunks, chunk);
    }
}

/// Is everything in the border of an attack also in its border set, and in its queue?
pub open spec fn border_queued(run: RunView) -> bool {
    forall|t: u32| #[trigger]
        run.border_set.contains(t) ==> run.attack.border.contains(t) && exists|p: i32| #[trigger]
            run.queue.contains((p, t))
}

/// After a capture the front goes on: every neighbour of the captured tile that is not ocean, whatever
/// its kind of land, and held by the attack's loser is in the border and in the queue; one that was not
/// in the border before has the priority of the board as it is then.
pub proof fn lemma_capture_pushes_front(
    run: RunView,
    board: Board,
    tile: u32,
    outcome: CombatOutcome,
    nx: int,
    ny: int,
)
    requires
        captures(run, board, tile),
        border_queued(run),
        run.attack.border.len() <= 4092,
        0 <= nx < 1350,
        0 <= ny < 675,
        adjacent(tile as int % 1350, tile as int / 1350, nx, ny),
        ({
            let board2 = board.claimed(
                tile as int % 1350,
                tile as int / 1350,
                run.attacker.id,
            );
            board2.terrain_at(nx, ny) != 0 && board2.owner_at(nx, ny) == loser(run.attack.target)
        }),
    ensures
        ({
            let after = resolved(run, board, tile, outcome);
            let board2 = board.claimed(
                tile as int % 1350,
                tile as int / 1350,
                run.attacker.id,
            );
            let next = (ny * 1350 + nx) as u32;
            let priority = tile_priority(
                board2,
                run.attacker.id,
                nx,
                ny,
                run.tick,
            );
            &&& after.attack.border.contains(next)
            &&& after.border_set.contains(next)
            &&& exists|p: i32| #[trigger] after.queue.contains((p, next))
            &&& !run.border_set.contains(next) ==> after.queue.contains((priority, next))
        }),
{
    let tx = tile as int % 1350;
    let ty = tile as int / 1350;
    let board2 = board.claimed(tx, ty, run.attacker.id);
    let held = narrowed(booked(fought(run, outcome), board2, tx, ty), tile);
    let prey = prey_around(board2, run.attacker.id, run.attack.target, tx, ty, run.tick, 4);
    let next = (ny * 1350 + nx) as u32;
    lemma_tile_index(nx, ny);
    lemma_prey_is_front(board2, run.attacker.id, run.attack.target, tx, ty, run.tick, nx, ny);
    let entry = (
        next,
        tile_priority(board2, run.attacker.id, nx, ny, run.tick),
    );
    let i = choose|i: int| 0 <= i < prey.len() && prey[i] == entry;
    lemma_border_without(run.attack.border, tile);
    lemma_prey_members(board2, run.attacker.id, run.attack.target, tx, ty, run.tick, 4);
    assert(next != tile);
    lemma_widened_front(held, prey, prey.len() as int);
    lemma_widened_takes(held, prey, prey.len() as int, i);
    if run.border_set.contains(next) {
        assert(run.attack.border.contains(next));
        assert(held.attack.border.contains(next));
        let p = choose|p: i32| #[trigger] run.queue.contains((p, next));
        assert(held.queue.contains((p, next)));
    }
}

/// Is this tile a neighbour of the captured one that is no ocean and held by the attack's loser, on the
/// board as it is then?
pub open spec fn next_to_capture(run: RunView, board: Board, tile: u32, next: u32) -> bool {
    let x = next as int % 1350;
    let y = next as int / 1350;
    &&& adjacent(tile as int % 1350, tile as int / 1350, x, y)
    &&& board.terrain_at(x, y) != 0
    &&& board.owner_at(x, y) == loser(run.attack.target)
}

/// What a capture puts into the queue, for any attack whatever: one entry, with the priority of the board
/// as it is then, for each neighbour of the captured tile that the front goes on to and that was not in
/// the border before. It does so though the border may be full. The set of the border is then that from
/// before and those neighbours, without the captured tile.
pub proof fn lemma_capture_queues(
    run: RunView,
    board: Board,
    tile: u32,
    outcome: CombatOutcome,
    entry: (i32, u32),
)
    requires
        captures(run, board, tile),
        entry.1 < 911_250,
    ensures
        ({
            let after = resolved(run, board, tile, outcome);
            let board2 = board_after(run, board, tile);
            let next = entry.1;
            let priority = tile_priority(
                board2,
                run.attacker.id,
                next as int % 1350,
                next as int / 1350,
                run.tick,
            );
            let goes_on_to = next_to_capture(run, board2, tile, next);
            &&& after.queue.count(entry) == run.queue.count(entry) + one_if(
                goes_on_to && !run.border_set.contains(next) && entry.0 == priority,
            )
            &&& after.border_set.contains(next) <==> goes_on_to || (run.border_set.contains(next)
                && next != tile)
        }),
{
    let tx = tile as int % 1350;
    let ty = tile as int / 1350;
    let next = entry.1;
    let nx = next as int % 1350;
    let ny = next as int / 1350;
    let board2 = board.claimed(tx, ty, run.attacker.id);
    let held = narrowed(booked(fought(run, outcome), board2, tx, ty), tile);
    let prey = prey_around(board2, run.attacker.id, run.attack.target, tx, ty, run.tick, 4);
    lemma_prey_is_front(board2, run.attacker.id, run.attack.target, tx, ty, run.tick, nx, ny);
    lemma_prey_members(board2, run.attacker.id, run.attack.target, tx, ty, run.tick, 4);
    lemma_widened_counts(held, prey, prey.len() as int, entry);
    lemma_widened_set(held, prey, prey.len() as int);
    assert(((ny * 1350 + nx) as u32) == next);
    let priority = tile_priority(board2, run.attacker.id, nx, ny, run.tick);
    if next_to_capture(run, board2, tile, next) {
        let i = choose|i: int| 0 <= i < prey.len() && prey[i] == (next, priority);
        assert(prey[i].0 == next);
        assert(next != tile);
        if listed_before(prey, prey.len() as int, entry) {
            let j = choose|j: int| 0 <= j < prey.len() && #[trigger] prey[j] == (next, entry.0);
            assert(j == i);
        }
        if entry.0 == priority {
            assert(listed_before(prey, prey.len() as int, entry));
        }
    } else if listed_before(prey, prey.len() as int, entry) {
        let j = choose|j: int| 0 <= j < prey.len() && #[trigger] prey[j] == (next, entry.0);
        assert(prey[j].0 == next);
    }
}

/// What a capture leaves in the border: nothing but what was there and the neighbours that the front goes
/// on to, and, where there is room, all of those that are new.
pub proof fn lemma_capture_border(
    run: RunView,
    board: Board,
    tile: u32,
    outcome: CombatOutcome,
    next: u32,
)
    requires
        captures(run, board, tile),
        next < 911_250,
    ensures
        ({
            let after = resolved(run, board, tile, outcome);
            let goes_on_to = next_to_capture(run, board_after(run, board, tile), tile, next);
            &&& after.attack.border.contains(next) ==> goes_on_to || (run.attack.border.contains(
                next,
            ) && next != tile)
            &&& goes_on_to && !run.border_set.contains(next) && run.attack.border.len() <= 4092
                ==> after.attack.border.contains(next)
        }),
{
    let tx = tile as int % 1350;
    let ty = tile as int / 1350;
    let nx = next as int % 1350;
    let ny = next as int / 1350;
    let board2 = board.claimed(tx, ty, run.attacker.id);
    let held = narrowed(booked(fought(run, outcome), board2, tx, ty), tile);
    let prey = prey_around(board2, run.attacker.id, run.attack.target, tx, ty, run.tick, 4);
    lemma_prey_is_front(board2, run.attacker.id, run.attack.target, tx, ty, run.tick, nx, ny);
    lemma_prey_members(board2, run.attacker.id, run.attack.target, tx, ty, run.tick, 4);
    lemma_border_without(run.attack.border, tile);
    lemma_widened_front(held, prey, prey.len() as int);
    assert(((ny * 1350 + nx) as u32) == next);
    let priority = tile_priority(board2, run.attacker.id, nx, ny, run.tick);
    if next_to_capture(run, board2, tile, next) && run.attack.border.len() <= 4092 {
        let i = choose|i: int| 0 <= i < prey.len() && prey[i] == (next, priority);
        lemma_widened_takes(held, prey, prey.len() as int, i);
    }
}

/// Is an entry of the queue among the first `n` of these tiles?
pub open spec fn listed_before(tiles: Seq<(u32, i32)>, n: int, entry: (i32, u32)) -> bool {
    exists|j: int| 0 <= j < n && #[trigger] tiles[j] == (entry.1, entry.0)
}

/// Widening queues each tile once that was not in the border set.
proof fn lemma_widened_counts(run: RunView, tiles: Seq<(u32, i32)>, n: int, entry: (i32, u32))
    requires
        0 <= n <= tiles.len(),
        forall|a: int, b: int|
            0 <= a < b < tiles.len() ==> (#[trigger] tiles[a]).0 != (#[trigger] tiles[b]).0,
    ensures
        widened(run, tiles, n).queue.count(entry) == run.queue.count(entry) + one_if(
            listed_before(tiles, n, entry) && !run.border_set.contains(entry.1),
        ),
    decreases n,
{
    if n > 0 {
        lemma_widened_counts(run, tiles, n - 1, entry);
        lemma_widened_set(run, tiles, n - 1);
        let before = widened(run, tiles, n - 1);
        let (tile, priority) = tiles[n - 1];
        assert(before.border_set.contains(tile) <==> run.border_set.contains(tile));
        if (priority, tile) == entry {
            assert(tiles[n - 1] == (entry.1, entry.0));
            assert(listed_before(tiles, n, entry));
            if listed_before(tiles, n - 1, entry) {
                let j = choose|j: int| 0 <= j < n - 1 && #[trigger] tiles[j] == (entry.1, entry.0);
                assert(tiles[j].0 != tiles[n - 1].0);
            }
        } else {
            if listed_before(tiles, n, entry) {
                let j = choose|j: int| 0 <= j < n && #[trigger] tiles[j] == (entry.1, entry.0);
                assert(j < n - 1);
            }
            if listed_before(tiles, n - 1, entry) {
                let j = choose|j: int| 0 <= j < n - 1 && #[trigger] tiles[j] == (entry.1, entry.0);
                assert(0 <= j < n && tiles[j] == (entry.1, entry.0));
            }
        }
    }
}

/// Widening takes every new tile in, where there is room.
proof fn lemma_widened_takes(run: RunView, tiles: Seq<(u32, i32)>, n: int, i: int)
    requires
        0 <= n <= tiles.len(),
        0 <= i < n,
        run.attack.border.len() + n <= 4096,
        forall|a: int, b: int|
            0 <= a < b < tiles.len() ==> (#[trigger] tiles[a]).0 != (#[trigger] tiles[b]).0,
    ensures
        ({
            let after = widened(run, tiles, n);
            &&& after.border_set.contains(tiles[i].0)
            &&& forall|t: u32| #[trigger]
                run.attack.border.contains(t) ==> after.attack.border.contains(t)
            &&& !run.border_set.contains(tiles[i].0) ==> after.attack.border.contains(tiles[i].0)
                && after.queue.contains((tiles[i].1, tiles[i].0))
            &&& after.attack.border.len() <= run.attack.border.len() + n
        }),
    decreases n,
{
    let before = widened(run, tiles, n - 1);
    let after = widened(run, tiles, n);
    let (tile, priority) = tiles[n - 1];
    lemma_widened_size(run, tiles, n - 1);
    lemma_widened_set(run, tiles, n - 1);
    if i < n - 1 {
        lemma_widened_takes(run, tiles, n - 1, i);
    }
    assert forall|t: u32| #[trigger] before.attack.border.contains(t) implies
        after.attack.border.contains(t) by {
        let k = choose|k: int| 0 <= k < before.attack.border.len() && before.attack.border[k] == t;
        assert(after.attack.border[k] == t);
    }
    assert forall|t: u32| #[trigger] run.attack.border.contains(t) implies
        after.attack.border.contains(t) by {
        assert(before.attack.border.contains(t));
    }
    if !before.border_set.contains(tile) {
        assert(after.attack.border[before.attack.border.len() as int] == tile);
    }
}

/// Widening adds at most as many tiles as it is given, and loses none.
proof fn lemma_widened_size(run: RunView, tiles: Seq<(u32, i32)>, n: int)
    requires
        0 <= n <= tiles.len(),
    ensures
        widened(run, tiles, n).attack.border.len() <= run.attack.border.len() + n,
        forall|t: u32| #[trigger]
            run.attack.border.contains(t) ==> widened(run, tiles, n).attack.border.contains(t),
    decreases n,
{
    if n > 0 {
        lemma_widened_size(run, tiles, n - 1);
        let before = widened(run, tiles, n - 1);
        let after = widened(run, tiles, n);
        assert forall|t: u32| #[trigger] run.attack.border.contains(t) implies
            after.attack.border.contains(t) by {
            assert(before.attack.border.contains(t));
            let k = choose|k: int|
                0 <= k < before.attack.border.len() && before.attack.border[k] == t;
            assert(after.attack.border[k] == t);
        }
    }
}

/// Widening puts the tiles that it is given into the border set, and no others.
proof fn lemma_widened_set(run: RunView, tiles: Seq<(u32, i32)>, n: int)
    requires
        0 <= n <= tiles.len(),
    ensures
        forall|t: u32| #[trigger]
            widened(run, tiles, n).border_set.contains(t) <==> run.border_set.contains(t)
                || exists|k: int| 0 <= k < n && (#[trigger] tiles[k]).0 == t,
    decreases n,
{
    if n > 0 {
        lemma_widened_set(run, tiles, n - 1);
        let before = widened(run, tiles, n - 1);
        let after = widened(run, tiles, n);
        assert forall|t: u32| #[trigger] after.border_set.contains(t) <==> run.border_set.contains(t)
            || exists|k: int| 0 <= k < n && (#[trigger] tiles[k]).0 == t by {
            assert(after.border_set.contains(t) <==> before.border_set.contains(t) || t
                == tiles[n - 1].0);
        }
    }
}

/// A capture takes its tile out of the border and leaves all others in it, and it takes nothing out of
/// the queue.
pub proof fn lemma_capture_keeps_front(
    run: RunView,
    board: Board,
    tile: u32,
    outcome: CombatOutcome,
    other: u32,
    entry: (i32, u32),
)
    requires
        captures(run, board, tile),
        other != tile,
    ensures
        ({
            let after = resolved(run, board, tile, outcome);
            &&& !after.attack.border.contains(tile)
            &&& run.attack.border.contains(other) ==> after.attack.border.contains(other)
            &&& run.border_set.contains(other) ==> after.border_set.contains(other)
            &&& run.queue.contains(entry) ==> after.queue.contains(entry)
        }),
{
    let tx = tile as int % 1350;
    let ty = tile as int / 1350;
    let board2 = board.claimed(tx, ty, run.attacker.id);
    let held = narrowed(booked(fought(run, outcome), board2, tx, ty), tile);
    let prey = prey_around(board2, run.attacker.id, run.attack.target, tx, ty, run.tick, 4);
    lemma_border_without(run.attack.border, tile);
    lemma_widened_front(held, prey, prey.len() as int);
    lemma_widened_size(held, prey, prey.len() as int);
    lemma_prey_is_front(board2, run.attacker.id, run.attack.target, tx, ty, run.tick, tx, ty);
    let after = resolved(run, board, tile, outcome);
    if after.attack.border.contains(tile) {
        assert(!held.attack.border.contains(tile));
        let i = choose|i: int| 0 <= i < prey.len() && (#[trigger] prey[i]).0 == tile;
        assert(((ty * 1350 + tx) as u32) == tile);
        assert(adjacent(tx, ty, tx, ty));
    }
    if run.attack.border.contains(other) {
        assert(held.attack.border.contains(other));
    }
    if run.border_set.contains(other) {
        assert(held.border_set.contains(other));
    }
    if run.queue.contains(entry) {
        assert(held.queue.contains(entry));
    }
}

/// The move of an attack. Without budget it saves, and without troops it ends, and then nothing else
/// changes. With an empty queue it gathers its border anew, or goes home where there is none. Else it
/// takes the entry that comes first, by priority value and then by tile, out of its queue, and fights
/// for that tile if the attack's loser holds it and the attacker touches it.
pub proof fn lemma_move(run: RunView, board: Board, budget: Quantity)
    ensures
        ({
            let (after, action) = advanced(run, board, budget);
            let border = attack_border(
                board,
                run.attacker.id,
                run.attack.target,
                run.tick,
                run.attacker.owned_chunks,
            );
            if !positive(budget) {
                action is Save && after == run
            } else if below_one(run.attack.troops) {
                action is Delete && after == run
            } else if run.queue.len() == 0 && border.len() == 0 {
                &&& after == run
                &&& action == AttackAction::Refund {
                    percent: if run.attack.target == 0 {
                        100
                    } else {
                        75
                    },
                }
            } else if run.queue.len() == 0 {
                &&& action is Again
                &&& after.attack == (AttackView {
                    border: after.attack.border,
                    last_refresh_tick: run.tick,
                    ..run.attack
                })
                &&& after.attacker == run.attacker
                &&& after.target == run.target
                &&& after.tick == run.tick
                &&& after.attack.border.len() == border.len()
                &&& after.queue.len() == border.len()
                &&& forall|i: int|
                    0 <= i < border.len() ==> after.attack.border[i] == (#[trigger] border[i]).0
                        && after.border_set.contains(border[i].0) && after.queue.contains(
                        (border[i].1, border[i].0),
                    )
                &&& forall|t: u32| #[trigger]
                    after.border_set.contains(t) ==> after.attack.border.contains(t)
            } else {
                exists|entry: (i32, u32)| #[trigger]
                    taken_first(run.queue, entry) && after == (RunView {
                        queue: run.queue.remove(entry),
                        ..run
                    }) && action == (if board.owner_at(
                        entry.1 as int % 1350,
                        entry.1 as int / 1350,
                    ) == loser(run.attack.target) && touches(
                        board,
                        run.attacker.id,
                        entry.1 as int % 1350,
                        entry.1 as int / 1350,
                    ) {
                        AttackAction::Combat {
                            tile: entry.1,
                            terrain: board.terrain_at(
                                entry.1 as int % 1350,
                                entry.1 as int / 1350,
                            ),
                        }
                    } else {
                        AttackAction::Again
                    })
            }
        }),
{
    let (after, action) = advanced(run, board, budget);
    let border = attack_border(
        board,
        run.attacker.id,
        run.attack.target,
        run.tick,
        run.attacker.owned_chunks,
    );
    if run.queue.len() == 0 {
        lemma_queued(border);
        if positive(budget) && !below_one(run.attack.troops) && border.len() > 0 {
            assert forall|i: int| 0 <= i < border.len() implies after.attack.border[i] == (
            #[trigger] border[i]).0 && after.border_set.contains(border[i].0)
                && after.queue.contains((border[i].1, border[i].0)) by {
                assert(tiles_of(border)[i] == border[i].0);
                assert(tiles_of(border).contains(border[i].0));
                assert(queued(border).contains((border[i].1, border[i].0)));
            }
        }
    } else {
        lemma_first_entry_exists(run.queue);
        let entry = first_entry(run.queue);
        let x = entry.1 as int % 1350;
        let y = entry.1 as int / 1350;
        assert(taken_first(run.queue, entry));
        assert(touches(board, run.attacker.id, x, y) <==> exists|d: int|
            0 <= d < 4 && #[trigger] holds_beside(board, run.attacker.id, x, y, d)) by {
            assert(holds_beside(board, run.attacker.id, x, y, 0) <==> board.owner_at(x + 1, y)
                == Some(run.attacker.id));
            assert(holds_beside(board, run.attacker.id, x, y, 1) <==> board.owner_at(x - 1, y)
                == Some(run.attacker.id));
            assert(holds_beside(board, run.attacker.id, x, y, 2) <==> board.owner_at(x, y + 1)
                == Some(run.attacker.id));
            assert(holds_beside(board, run.attacker.id, x, y, 3) <==> board.owner_at(x, y - 1)
                == Some(run.attacker.id));
        }
    }
}

/// Is the entry in the queue, and does none come before it: none with a lower priority value, nor one
/// with the same and a lower tile?
pub open spec fn taken_first(queue: Multiset<(i32, u32)>, entry: (i32, u32)) -> bool {
    &&& queue.contains(entry)
    &&& forall|other: (i32, u32)| #[trigger]
        queue.contains(other) ==> entry.0 < other.0 || (entry.0 == other.0 && entry.1 <= other.1)
}

/// A retreat brings everything back from the wilderness, and three quarters from any player.
pub proof fn lemma_refund(target: u32)
    ensures
        refund_share(target) == if target == 0 {
            100int
        } else {
            75int
        },
{
}

/// An attack opens its step with its rows as they are stored, an entry in the queue for every stored
/// tile, and its border as the set.
pub proof fn lemma_opens_as_stored(
    attack: AttackView,
    attacker: PlayerView,
    target: Option<PlayerView>,
    tick: u64,
    i: int,
)
    requires
        0 <= i < attack.to_conquer_tiles.len(),
    ensures
        ({
            let run = opened_run(attack, attacker, target, tick);
            &&& run.attack == attack
            &&& run.attacker == attacker
            &&& run.tick == tick
            &&& attack.target == 0 ==> run.target is None
            &&& attack.target != 0 ==> run.target == target
            &&& run.queue.len() == attack.to_conquer_tiles.len()
            &&& run.queue.contains(
                (
                    if i < attack.to_conquer_priorities.len() {
                        attack.to_conquer_priorities[i]
                    } else {
                        0
                    },
                    attack.to_conquer_tiles[i],
                ),
            )
            &&& forall|t: u32| #[trigger]
                run.border_set.contains(t) <==> attack.border.contains(t)
        }),
{
    broadcast use vstd::seq_lib::group_to_multiset_ensures;

    let entries = stored_entries(
        attack.to_conquer_tiles,
        attack.to_conquer_priorities,
    );
    assert(entries.contains(entries[i]));
}

/// Is the turn at this place a fight?
pub open spec fn fights_at(play: Play, turns: Seq<Turn>, k: int) -> bool {
    let before = after_turns(play, turns.take(k));
    !before.over && advanced(before.run, before.board, turns[k].budget).1 is Combat
}

/// Over a whole step the attack has the troops that its last fight left, and those that it came with
/// where it has not fought. The row that is stored has the same.
pub proof fn lemma_step_books_last_fight(play: Play, turns: Seq<Turn>, last: int, row: AttackView)
    requires
        -1 <= last < turns.len(),
        last >= 0 ==> fights_at(play, turns, last),
        forall|k: int| last < k < turns.len() ==> !#[trigger] fights_at(play, turns, k),
        stores_run(row, after_turns(play, turns).run),
    ensures
        last >= 0 ==> row.troops.bits == cut(turns[last].outcome.attack_troops),
        last < 0 ==> row.troops == play.run.attack.troops,
        row.attacker == play.run.attack.attacker,
        row.target == play.run.attack.target,
        row.id == play.run.attack.id,
        row.retreating == play.run.attack.retreating,
{
    lemma_turns_book_last_fight(play, turns, last, turns.len() as int);
    assert(turns.take(turns.len() as int) =~= turns);
}

/// The same of the first `n` turns.
proof fn lemma_turns_book_last_fight(play: Play, turns: Seq<Turn>, last: int, n: int)
    requires
        -1 <= last < n <= turns.len() || (last == -1 && n == 0),
        last >= 0 ==> fights_at(play, turns, last),
        forall|k: int| last < k < n ==> !#[trigger] fights_at(play, turns, k),
    ensures
        ({
            let run = after_turns(play, turns.take(n)).run;
            &&& last >= 0 ==> run.attack.troops.bits == cut(turns[last].outcome.attack_troops)
            &&& last < 0 ==> run.attack.troops == play.run.attack.troops
            &&& run.attack.attacker == play.run.attack.attacker
            &&& run.attack.target == play.run.attack.target
            &&& run.attack.id == play.run.attack.id
            &&& run.attack.retreating == play.run.attack.retreating
        }),
    decreases n,
{
    if n > 0 {
        let k = n - 1;
        let before = after_turns(play, turns.take(k));
        let turn = turns[k];
        assert(turns.take(n).drop_last() =~= turns.take(k));
        assert(turns.take(n).last() == turn);
        let (run, action) = advanced(before.run, before.board, turn.budget);
        if last == k {
            lemma_turns_keep_ids(play, turns, k);
            if let AttackAction::Combat { tile, terrain } = action {
                lemma_fight_books_losses(run, before.board, tile, turn.outcome);
            }
        } else {
            lemma_turns_book_last_fight(play, turns, last, k);
            assert(!fights_at(play, turns, k));
        }
    } else {
        assert(turns.take(0) =~= Seq::empty());
    }
}

/// Whatever the turns, an attack stays the attack that it is.
proof fn lemma_turns_keep_ids(play: Play, turns: Seq<Turn>, n: int)
    requires
        0 <= n <= turns.len(),
    ensures
        ({
            let run = after_turns(play, turns.take(n)).run;
            &&& run.attack.attacker == play.run.attack.attacker
            &&& run.attack.target == play.run.attack.target
            &&& run.attack.id == play.run.attack.id
            &&& run.attack.retreating == play.run.attack.retreating
        }),
    decreases n,
{
    if n > 0 {
        let k = n - 1;
        lemma_turns_keep_ids(play, turns, k);
        let before = after_turns(play, turns.take(k));
        let turn = turns[k];
        assert(turns.take(n).drop_last() =~= turns.take(k));
        assert(turns.take(n).last() == turn);
        let (run, action) = advanced(before.run, before.board, turn.budget);
        if let AttackAction::Combat { tile, terrain } = action {
            lemma_fight_books_losses(run, before.board, tile, turn.outcome);
        }
    } else {
        assert(turns.take(0) =~= Seq::empty());
    }
}

/// A retreating attack never fights: its troops come home where the attacker still has a row, and are
/// lost where it has none. Any other attack fights if and only if its attacker lives and has spawned
/// and its target is the wilderness or lives.
pub proof fn lemma_opening(attack: Attack, attacker: Option<Player>, target: Option<Player>)
    ensures
        ({
            let home = comes_home(attack, attacker);
            let fights = keeps_fighting(attack, attacker, target);
            &&& attack.retreating ==> !fights && (home <==> attacker is Some)
            &&& !attack.retreating ==> !home
            &&& attacker is None ==> !home && !fights
            &&& !attack.retreating && attacker is Some && (!attacker->Some_0.alive
                || attacker->Some_0.spawn_tile is None) ==> !fights
            &&& !attack.retreating && attacker is Some && attacker->Some_0.alive
                && attacker->Some_0.spawn_tile is Some ==> {
                &&& attack.target == 0 ==> fights
                &&& attack.target != 0 && target is None ==> !fights
                &&& attack.target != 0 && target is Some ==> (fights <==> target->Some_0.alive)
            }
        }),
{
}

/// Chance lengthens the front of a step by at most four tiles over the border.
pub proof fn lemma_front_length(attack: AttackView, match_id: u64, tick: u64)
    ensures
        attack.border.len() <= front_length(attack, match_id, tick) <= attack.border.len() + 4,
        front_length(attack, match_id, tick) - attack.border.len() == seed_of(
            match_id,
            tick,
            attack.id,
        ) % 5,
{
}

/// An attack is spent once it has less than one troop.
pub proof fn lemma_spent(troops: Quantity)
    ensures
        spent(troops) <==> below_one(troops),
{
}

/// A fight for a tile of the board gives it to the attacker, whoever held it and whatever the outcome. No
/// other tile changes hands, and the row of the tile is written if and only if the tile did.
pub proof fn lemma_fight_claims(
    run: RunView,
    board: Board,
    dirty: Set<u64>,
    tile: u32,
    ux: int,
    uy: int,
)
    requires
        run.attacker.id < 255,
    ensures
        ({
            let tx = tile as int % 1350;
            let ty = tile as int / 1350;
            let after = board_after(run, board, tile);
            let written = written_after(run, board, dirty, tile);
            let key = tile_chunk_key(board.match_id, tx, ty);
            &&& board.has_tile(tx, ty) ==> after.owner_at(tx, ty) == Some(run.attacker.id)
            &&& (ux, uy) != (tx, ty) ==> after.owner_at(ux, uy) == board.owner_at(ux, uy)
            &&& after.terrain_at(ux, uy) == board.terrain_at(ux, uy)
            &&& written.contains(key) <==> dirty.contains(key) || (board.has_tile(tx, ty)
                && board.owner_at(tx, ty) != Some(run.attacker.id))
            &&& forall|id: u64|
                id != key ==> (#[trigger] written.contains(id) <==> dirty.contains(id))
        }),
{
    lemma_board_writes(
        board,
        tile as int % 1350,
        tile as int / 1350,
        run.attacker.id,
        ux,
        uy,
    );
}

/// After a fight an attack ends if it has less than one troop left, and else goes on, whatever became of
/// the tile and the target.
pub proof fn lemma_action_after(outcome: CombatOutcome)
    ensures
        below_one((Quantity { bits: cut(outcome.attack_troops) })) ==> action_after(
            outcome,
        ) is Delete,
        !below_one((Quantity { bits: cut(outcome.attack_troops) })) ==> action_after(
            outcome,
        ) is Again,
{
}

/// Only an attack that saves itself at the end of its step is stored.
pub proof fn lemma_kept(last: AttackAction)
    ensures
        last is Save ==> is_kept(last),
        last is Delete || last is Again || last is Combat || last is Refund ==> !is_kept(last),
{
}

} // verus!
