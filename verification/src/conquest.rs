//! What holds of an attack throughout its step: it fights for land only, it never waits on an
//! empty front, and its rows stay within their limits.

use vstd::multiset::Multiset;
use vstd::prelude::*;

use crate::attack::{
    advanced, board_after, booked, border_without, first_entry, fought, narrowed, opened_run,
    queued, resolved, spent, still_open, stores_run, takeable, widened, AttackAction, CombatOutcome,
    RunView,
};
use crate::chunks::{lemma_claimed, owner_of_byte, Board};
use crate::front::{
    attack_border, beside, capturable, holds_beside, lemma_border_found, lemma_border_sound,
    of_match, on_front, opposite, prey_around, tiles_of,
};
use crate::grid::{
    chunk_index, lemma_chunk_in_range, lemma_chunk_key, lemma_tile_index, on_map, CHUNK_SIZE,
    SIM_TILES, SIM_W,
};
use crate::launch::Launch;
use crate::quantity::{one_quantity, zero_quantity, Quantity};
use crate::queue::{comes_first, stored_entries, ATTACK_HEAP_CAP};
use crate::tables::{AttackView, PlayerView, UNCLAIMED};

verus! {

/// Is the tile land?
pub open spec fn land_tile(board: Board, tile: u32) -> bool {
    tile < SIM_TILES && board.is_land(tile as int % SIM_W as int, tile as int / SIM_W as int)
}

/// Are all tiles of a queue land?
pub open spec fn queue_on_land(board: Board, queue: Multiset<(i32, u32)>) -> bool {
    forall|entry: (i32, u32)| #[trigger] queue.contains(entry) ==> land_tile(board, entry.1)
}

/// An entry of a queue is one of the entries that were put into it.
pub proof fn lemma_queued(entries: Seq<(u32, i32)>)
    ensures
        forall|entry: (i32, u32)| #[trigger]
            queued(entries).contains(entry) <==> exists|i: int|
                0 <= i < entries.len() && #[trigger] entries[i] == (entry.1, entry.0),
        queued(entries).len() == entries.len(),
{
    broadcast use vstd::seq_lib::group_to_multiset_ensures;

    let swapped = entries.map_values(|e: (u32, i32)| (e.1, e.0));
    assert forall|entry: (i32, u32)| #[trigger] queued(entries).contains(entry) <==> exists|i: int|
        0 <= i < entries.len() && #[trigger] entries[i] == (entry.1, entry.0) by {
        if queued(entries).contains(entry) {
            assert(swapped.contains(entry));
            let i = choose|i: int| 0 <= i < swapped.len() && swapped[i] == entry;
            assert(entries[i] == (entry.1, entry.0));
        }
        if exists|i: int| 0 <= i < entries.len() && #[trigger] entries[i] == (entry.1, entry.0) {
            let i = choose|i: int|
                0 <= i < entries.len() && #[trigger] entries[i] == (entry.1, entry.0);
            assert(swapped[i] == entry);
            assert(swapped.contains(entry));
        }
    }
}

/// A queue that is not empty has a first entry.
pub proof fn lemma_first_entry_exists(queue: Multiset<(i32, u32)>)
    requires
        queue.len() > 0,
    ensures
        queue.contains(first_entry(queue)),
        forall|other: (i32, u32)| #[trigger]
            queue.contains(other) ==> comes_first(first_entry(queue), other),
{
    let first = lemma_some_first_in(queue);
    assert(queue.contains(first) && forall|other: (i32, u32)| #[trigger]
        queue.contains(other) ==> comes_first(first, other));
}

/// Of the entries of a queue, one comes first.
proof fn lemma_some_first_in(queue: Multiset<(i32, u32)>) -> (first: (i32, u32))
    requires
        queue.len() > 0,
    ensures
        queue.contains(first),
        forall|other: (i32, u32)| #[trigger] queue.contains(other) ==> comes_first(first, other),
    decreases queue.len(),
{
    let entry = queue.choose();
    let rest = queue.remove(entry);
    if rest.len() == 0 {
        assert forall|other: (i32, u32)| #[trigger] queue.contains(other) implies comes_first(
            entry,
            other,
        ) by {
            if other != entry {
                assert(rest.contains(other));
            }
        }
        entry
    } else {
        let first = lemma_some_first_in(rest);
        let least = if comes_first(first, entry) {
            first
        } else {
            entry
        };
        assert forall|other: (i32, u32)| #[trigger] queue.contains(other) implies comes_first(
            least,
            other,
        ) by {
            if other != entry {
                assert(rest.contains(other));
            }
        }
        assert(queue.contains(first));
        least
    }
}

/// An attack that fights for a tile fights for one that it may still take.
pub proof fn lemma_combat_is_open(run: RunView, board: Board, budget: Quantity, tile: u32, terrain: u8)
    requires
        advanced(run, board, budget).1 == (AttackAction::Combat { tile, terrain }),
    ensures
        still_open(run, board, tile),
        terrain == board.terrain_at(tile as int % SIM_W as int, tile as int / SIM_W as int),
{
}

/// A move of an attack that has only land in its queue leaves only land there, and if it fights, it
/// fights for land.
pub proof fn lemma_advance_on_land(run: RunView, board: Board, budget: Quantity)
    requires
        queue_on_land(board, run.queue),
        run.attacker.id < UNCLAIMED,
        of_match(board.match_id, run.attacker.owned_chunks),
    ensures
        ({
            let (after, action) = advanced(run, board, budget);
            &&& queue_on_land(board, after.queue)
            &&& action matches AttackAction::Combat { tile, terrain } ==> land_tile(board, tile)
        }),
{
    let (after, action) = advanced(run, board, budget);
    if run.queue.len() == 0 {
        let border = attack_border(
            board,
            run.attacker.id,
            run.attack.target,
            run.tick,
            run.attacker.owned_chunks,
        );
        lemma_border_sound(
            board,
            run.attacker.id,
            run.attack.target,
            run.tick,
            run.attacker.owned_chunks,
        );
        lemma_queued(border);
        assert forall|entry: (i32, u32)| #[trigger]
            queued(border).contains(entry) implies land_tile(board, entry.1) by {
            let i = choose|i: int|
                0 <= i < border.len() && #[trigger] border[i] == (entry.1, entry.0);
            assert(on_front(board, run.attacker.id, run.attack.target, border[i].0));
        }
    } else {
        lemma_first_entry_exists(run.queue);
        let rest = run.queue.remove(first_entry(run.queue));
        assert forall|entry: (i32, u32)| #[trigger] rest.contains(entry) implies run.queue.contains(
            entry,
        ) by {}
    }
}

/// What lies around a tile and can be taken is land.
proof fn lemma_prey_on_land(
    board: Board,
    attacker: u32,
    target: u32,
    tx: int,
    ty: int,
    tick: u64,
    n: int,
)
    ensures
        ({
            let prey = prey_around(board, attacker, target, tx, ty, tick, n);
            forall|i: int| 0 <= i < prey.len() ==> land_tile(board, (#[trigger] prey[i]).0)
        }),
    decreases n,
{
    if n > 0 {
        lemma_prey_on_land(board, attacker, target, tx, ty, tick, n - 1);
        let before = prey_around(board, attacker, target, tx, ty, tick, n - 1);
        let prey = prey_around(board, attacker, target, tx, ty, tick, n);
        assert forall|i: int| 0 <= i < prey.len() implies land_tile(
            board,
            (#[trigger] prey[i]).0,
        ) by {
            if i < before.len() {
                assert(prey[i] == before[i]);
            } else {
                let (nx, ny) = beside(tx, ty, n - 1);
                assert(on_map(nx, ny));
                lemma_tile_index(nx, ny);
            }
        }
    }
}

/// Widening a front by land leaves only land in its queue, and keeps its border within its limit.
proof fn lemma_widened(board: Board, run: RunView, tiles: Seq<(u32, i32)>, n: int)
    requires
        0 <= n <= tiles.len(),
    ensures
        queue_on_land(board, run.queue) && (forall|i: int|
            0 <= i < tiles.len() ==> land_tile(board, (#[trigger] tiles[i]).0)) ==> queue_on_land(
            board,
            widened(run, tiles, n).queue,
        ),
        run.attack.border.len() <= ATTACK_HEAP_CAP ==> widened(run, tiles, n).attack.border.len()
            <= ATTACK_HEAP_CAP,
    decreases n,
{
    if n > 0 {
        lemma_widened(board, run, tiles, n - 1);
        let before = widened(run, tiles, n - 1);
        let (tile, priority) = tiles[n - 1];
        assert forall|entry: (i32, u32)| #[trigger]
            before.queue.insert((priority, tile)).contains(entry) implies before.queue.contains(
            entry,
        ) || entry == (priority, tile) by {}
    }
}

/// A fight of an attack that has only land in its queue leaves only land there: whatever tiles
/// change hands, no terrain does.
pub proof fn lemma_resolve_on_land(run: RunView, board: Board, tile: u32, outcome: CombatOutcome)
    requires
        queue_on_land(board, run.queue),
    ensures
        queue_on_land(
            board.claimed(
                tile as int % SIM_W as int,
                tile as int / SIM_W as int,
                run.attacker.id,
            ),
            resolved(run, board, tile, outcome).queue,
        ),
{
    let tx = tile as int % SIM_W as int;
    let ty = tile as int / SIM_W as int;
    let after = board.claimed(tx, ty, run.attacker.id);
    assert forall|t: u32| #[trigger] land_tile(board, t) implies land_tile(after, t) by {
        lemma_claimed(
            board,
            tx,
            ty,
            run.attacker.id,
            t as int % SIM_W as int,
            t as int / SIM_W as int,
        );
    }
    assert(queue_on_land(after, run.queue));
    let prey = prey_around(after, run.attacker.id, run.attack.target, tx, ty, run.tick, 4);
    lemma_prey_on_land(after, run.attacker.id, run.attack.target, tx, ty, run.tick, 4);
    let held = narrowed(booked(fought(run, outcome), after, tx, ty), tile);
    lemma_widened(after, held, prey, prey.len() as int);
}

/// A border without a tile has the other tiles, and no more of them.
pub proof fn lemma_border_without(border: Seq<u32>, tile: u32)
    ensures
        border_without(border, tile).len() <= border.len(),
        forall|t: u32| #[trigger]
            border_without(border, tile).contains(t) <==> border.contains(t) && t != tile,
    decreases border.len(),
{
    reveal(Seq::filter);
    if border.len() > 0 {
        let rest = border.drop_last();
        let last = border.last();
        lemma_border_without(rest, tile);
        let before = border_without(rest, tile);
        let after = border_without(border, tile);
        assert forall|t: u32| #[trigger] after.contains(t) <==> border.contains(t) && t != tile by {
            if rest.contains(t) {
                let i = choose|i: int| 0 <= i < rest.len() && rest[i] == t;
                assert(border[i] == t);
            }
            assert(border[border.len() - 1] == last);
            if border.contains(t) && t != last {
                let i = choose|i: int| 0 <= i < border.len() && border[i] == t;
                assert(rest[i] == t);
            }
            if before.contains(t) {
                let i = choose|i: int| 0 <= i < before.len() && before[i] == t;
                assert(after[i] == t);
            }
            if last != tile {
                assert(after == before.push(last));
                assert(after[before.len() as int] == last);
                if after.contains(t) && t != last {
                    let i = choose|i: int| 0 <= i < after.len() && after[i] == t;
                    assert(before[i] == t);
                }
            }
        }
    }
}

/// The border of an attack stays within what an attack stores, whatever the attack does.
pub proof fn lemma_border_bounded(
    run: RunView,
    board: Board,
    budget: Quantity,
    tile: u32,
    outcome: CombatOutcome,
)
    requires
        run.attack.border.len() <= ATTACK_HEAP_CAP,
    ensures
        advanced(run, board, budget).0.attack.border.len() <= ATTACK_HEAP_CAP,
        resolved(run, board, tile, outcome).attack.border.len() <= ATTACK_HEAP_CAP,
{
    let tx = tile as int % SIM_W as int;
    let ty = tile as int / SIM_W as int;
    let after = board.claimed(tx, ty, run.attacker.id);
    let prey = prey_around(after, run.attacker.id, run.attack.target, tx, ty, run.tick, 4);
    let held = narrowed(booked(fought(run, outcome), after, tx, ty), tile);
    lemma_widened(after, held, prey, prey.len() as int);
    lemma_border_without(run.attack.border, tile);
    lemma_border_found(
        board,
        run.attacker.id,
        run.attack.target,
        run.tick,
        run.attacker.owned_chunks,
        run.attacker.owned_chunks.len() as int * 4096,
    );
}

/// An attack never waits on an empty front: once it has gathered its border anew, its next move is
/// a fight.
pub proof fn lemma_refresh_leads_to_combat(run: RunView, board: Board, budget: Quantity)
    requires
        run.attacker.id < UNCLAIMED,
        of_match(board.match_id, run.attacker.owned_chunks),
        zero_quantity().lt_spec(budget),
        !run.attack.troops.lt_spec(one_quantity()),
        run.queue.len() == 0,
        advanced(run, board, budget).1 is Again,
    ensures
        advanced(advanced(run, board, budget).0, board, budget).1 is Combat,
{
    let border = attack_border(
        board,
        run.attacker.id,
        run.attack.target,
        run.tick,
        run.attacker.owned_chunks,
    );
    lemma_border_sound(
        board,
        run.attacker.id,
        run.attack.target,
        run.tick,
        run.attacker.owned_chunks,
    );
    lemma_queued(border);
    lemma_first_entry_exists(queued(border));
    let first = first_entry(queued(border));
    let i = choose|i: int| 0 <= i < border.len() && #[trigger] border[i] == (first.1, first.0);
    assert(on_front(board, run.attacker.id, run.attack.target, border[i].0));
}

/// While an attack has tiles in its queue, every move takes one of them out.
pub proof fn lemma_queue_shrinks(run: RunView, board: Board, budget: Quantity)
    requires
        zero_quantity().lt_spec(budget),
        !run.attack.troops.lt_spec(one_quantity()),
        run.queue.len() > 0,
    ensures
        advanced(run, board, budget).0.queue.len() == run.queue.len() - 1,
{
    lemma_first_entry_exists(run.queue);
}

/// A new attack starts with its border in its queue, and so with land only.
pub proof fn lemma_opened_on_land(launch: Launch, board: Board, tick: u64)
    requires
        launch.attacker.id < UNCLAIMED,
        of_match(board.match_id, launch.attacker.owned_chunks@),
    ensures
        ({
            let border = attack_border(
                board,
                launch.attacker.id,
                launch.target,
                tick,
                launch.attacker.owned_chunks@,
            );
            let row = launch.opened(border, tick);
            let queue = stored_entries(
                row.to_conquer_tiles,
                row.to_conquer_priorities,
            ).to_multiset();
            &&& queue == queued(border)
            &&& queue_on_land(board, queue)
            &&& row.border.len() <= ATTACK_HEAP_CAP
        }),
{
    let border = attack_border(
        board,
        launch.attacker.id,
        launch.target,
        tick,
        launch.attacker.owned_chunks@,
    );
    let row = launch.opened(border, tick);
    lemma_border_sound(
        board,
        launch.attacker.id,
        launch.target,
        tick,
        launch.attacker.owned_chunks@,
    );
    lemma_queued(border);
    assert(stored_entries(row.to_conquer_tiles, row.to_conquer_priorities)
        =~= border.map_values(|e: (u32, i32)| (e.1, e.0)));
    assert forall|entry: (i32, u32)| #[trigger] queued(border).contains(entry) implies land_tile(
        board,
        entry.1,
    ) by {
        let i = choose|i: int| 0 <= i < border.len() && #[trigger] border[i] == (entry.1, entry.0);
        assert(on_front(board, launch.attacker.id, launch.target, border[i].0));
    }
}

/// A stored attack that had only land in its queue has only land stored.
pub proof fn lemma_stored_on_land(row: AttackView, run: RunView, board: Board)
    requires
        stores_run(row, run),
        queue_on_land(board, run.queue),
    ensures
        queue_on_land(
            board,
            stored_entries(row.to_conquer_tiles, row.to_conquer_priorities).to_multiset(),
        ),
{
    let stored = stored_entries(row.to_conquer_tiles, row.to_conquer_priorities).to_multiset();
    assert forall|entry: (i32, u32)| #[trigger] stored.contains(entry) implies run.queue.contains(
        entry,
    ) by {
        assert(stored.count(entry) <= run.queue.count(entry));
    }
}

/// A stored attack goes on where it stopped: the row keeps the border and, up to the limit of what
/// is stored, the whole queue.
pub proof fn lemma_attack_survives(row: AttackView, run: RunView)
    requires
        stores_run(row, run),
    ensures
        row.border == run.attack.border,
        row.troops == run.attack.troops,
        row.id == run.attack.id,
        row.match_id == run.attack.match_id,
        row.attacker == run.attack.attacker,
        row.target == run.attack.target,
        row.retreating == run.attack.retreating,
        row.source_tile == run.attack.source_tile,
        row.last_refresh_tick == run.attack.last_refresh_tick,
        row.to_conquer_tiles.len() == row.to_conquer_priorities.len(),
        row.to_conquer_tiles.len() <= ATTACK_HEAP_CAP,
        run.queue.len() <= ATTACK_HEAP_CAP ==> stored_entries(
            row.to_conquer_tiles,
            row.to_conquer_priorities,
        ).to_multiset() == run.queue,
{
}

/// The points of two tiles differ.
proof fn lemma_points_differ(t: u32, u: u32)
    requires
        t != u,
    ensures
        (t as int % SIM_W as int, t as int / SIM_W as int) != (
            u as int % SIM_W as int,
            u as int / SIM_W as int,
        ),
{
}

/// A tile that an attacker may take stays so when the attacker gets another.
proof fn lemma_takeable_stays(board: Board, attacker: u32, target: u32, t: u32, u: u32)
    requires
        takeable(board, attacker, target, t),
        t != u || !board.has_tile(u as int % SIM_W as int, u as int / SIM_W as int),
        attacker < UNCLAIMED,
    ensures
        takeable(
            board.claimed(u as int % SIM_W as int, u as int / SIM_W as int, attacker),
            attacker,
            target,
            t,
        ),
{
    let ux = u as int % SIM_W as int;
    let uy = u as int / SIM_W as int;
    let tx = t as int % SIM_W as int;
    let ty = t as int / SIM_W as int;
    let after = board.claimed(ux, uy, attacker);
    if t != u {
        lemma_points_differ(t, u);
    }
    lemma_claimed(board, ux, uy, attacker, tx, ty);
    let d = choose|d: int| 0 <= d < 4 && #[trigger] holds_beside(board, attacker, tx, ty, d);
    let (nx, ny) = beside(tx, ty, d);
    lemma_claimed(board, ux, uy, attacker, nx, ny);
    assert(owner_of_byte(attacker as u8) == Some(attacker));
    assert(holds_beside(after, attacker, tx, ty, d));
}

/// What an attacker holds, it keeps when it gets more.
proof fn lemma_held_stays(board: Board, attacker: u32, t: u32, u: u32)
    requires
        attacker < UNCLAIMED,
    ensures
        ({
            let after = board.claimed(u as int % SIM_W as int, u as int / SIM_W as int, attacker);
            &&& held_by(board, attacker, t) ==> held_by(after, attacker, t)
            &&& t == u && board.has_tile(u as int % SIM_W as int, u as int / SIM_W as int)
                ==> held_by(after, attacker, t)
            &&& t != u ==> held_by(after, attacker, t) == held_by(board, attacker, t)
            &&& after.has_tile(t as int % SIM_W as int, t as int / SIM_W as int) == board.has_tile(
                t as int % SIM_W as int,
                t as int / SIM_W as int,
            )
        }),
{
    if t != u {
        lemma_points_differ(t, u);
    }
    lemma_claimed(
        board,
        u as int % SIM_W as int,
        u as int / SIM_W as int,
        attacker,
        t as int % SIM_W as int,
        t as int / SIM_W as int,
    );
    assert(owner_of_byte(attacker as u8) == Some(attacker));
}

/// Does a player hold the tile?
pub open spec fn held_by(board: Board, player: u32, tile: u32) -> bool {
    board.owner_at(tile as int % SIM_W as int, tile as int / SIM_W as int) == Some(player)
}

/// What widening leaves as it is, and what it adds.
pub proof fn lemma_widened_front(run: RunView, tiles: Seq<(u32, i32)>, n: int)
    requires
        0 <= n <= tiles.len(),
    ensures
        ({
            let after = widened(run, tiles, n);
            &&& after.attacker == run.attacker
            &&& after.attack.target == run.attack.target
            &&& forall|e: (i32, u32)| #[trigger]
                run.queue.contains(e) ==> after.queue.contains(e)
            &&& forall|e: (i32, u32)| #[trigger]
                after.queue.contains(e) ==> run.queue.contains(e) || !run.border_set.contains(e.1)
            &&& forall|t: u32| #[trigger]
                run.border_set.contains(t) ==> after.border_set.contains(t)
            &&& forall|t: u32| #[trigger]
                after.attack.border.contains(t) ==> run.attack.border.contains(t) || exists|i: int|
                    0 <= i < tiles.len() && (#[trigger] tiles[i]).0 == t
        }),
    decreases n,
{
    if n > 0 {
        lemma_widened_front(run, tiles, n - 1);
        let before = widened(run, tiles, n - 1);
        let after = widened(run, tiles, n);
        let (tile, priority) = tiles[n - 1];
        assert forall|t: u32| #[trigger] after.attack.border.contains(t) implies
            before.attack.border.contains(t) || t == tiles[n - 1].0 by {
            let i = choose|i: int|
                0 <= i < after.attack.border.len() && after.attack.border[i] == t;
            if i < before.attack.border.len() {
                assert(before.attack.border[i] == t);
            }
        }
        assert forall|e: (i32, u32)| #[trigger] before.queue.contains(e) implies after.queue.contains(
            e,
        ) by {}
        assert forall|e: (i32, u32)| #[trigger] after.queue.contains(e) implies run.queue.contains(e)
            || !run.border_set.contains(e.1) by {
            if !before.queue.contains(e) {
                assert(e == (priority, tile));
                assert(!before.border_set.contains(tile));
            }
        }
    }
}

/// What lies around a tile of the attacker and can be taken may be taken.
proof fn lemma_prey_takeable(
    board: Board,
    attacker: u32,
    target: u32,
    tx: int,
    ty: int,
    tick: u64,
    n: int,
)
    requires
        0 <= n <= 4,
        board.owner_at(tx, ty) == Some(attacker),
    ensures
        ({
            let prey = prey_around(board, attacker, target, tx, ty, tick, n);
            forall|i: int|
                0 <= i < prey.len() ==> takeable(board, attacker, target, (#[trigger] prey[i]).0)
        }),
    decreases n,
{
    if n > 0 {
        lemma_prey_takeable(board, attacker, target, tx, ty, tick, n - 1);
        let before = prey_around(board, attacker, target, tx, ty, tick, n - 1);
        let prey = prey_around(board, attacker, target, tx, ty, tick, n);
        assert forall|i: int| 0 <= i < prey.len() implies takeable(
            board,
            attacker,
            target,
            (#[trigger] prey[i]).0,
        ) by {
            if i < before.len() {
                assert(prey[i] == before[i]);
            } else {
                let (nx, ny) = beside(tx, ty, n - 1);
                lemma_tile_index(nx, ny);
                assert(beside(nx, ny, opposite(n - 1)) == (tx, ty));
                assert(holds_beside(board, attacker, nx, ny, opposite(n - 1)));
            }
        }
    }
}

/// Is every tile of an attack's border one that the attack may take: the target's, next to one of
/// the attacker's?
pub open spec fn border_in_sync(run: RunView, board: Board) -> bool {
    forall|t: u32| #[trigger] run.attack.border.contains(t) ==> still_open(run, board, t)
}

/// A fight keeps the border in sync with the board: captured tiles leave it, and what opens up
/// around them comes in.
pub proof fn lemma_resolve_keeps_border(
    run: RunView,
    board: Board,
    tile: u32,
    outcome: CombatOutcome,
)
    requires
        border_in_sync(run, board),
        run.attacker.id < UNCLAIMED,
        run.attacker.id != run.attack.target,
    ensures
        ({
            let after = board.claimed(
                tile as int % SIM_W as int,
                tile as int / SIM_W as int,
                run.attacker.id,
            );
            let result = resolved(run, board, tile, outcome);
            &&& border_in_sync(result, after)
            &&& forall|t: u32| #[trigger]
                result.attack.border.contains(t) ==> !held_by(after, run.attacker.id, t)
        }),
{
    let tx = tile as int % SIM_W as int;
    let ty = tile as int / SIM_W as int;
    let id = run.attacker.id;
    let target = run.attack.target;
    let after = board.claimed(tx, ty, id);
    let result = resolved(run, board, tile, outcome);
    if board.has_tile(tx, ty) && capturable(target, board.owner_at(tx, ty)) {
        let held = narrowed(booked(fought(run, outcome), after, tx, ty), tile);
        let prey = prey_around(after, id, target, tx, ty, run.tick, 4);
        lemma_held_stays(board, id, tile, tile);
        lemma_prey_takeable(after, id, target, tx, ty, run.tick, 4);
        lemma_widened_front(held, prey, prey.len() as int);
        lemma_border_without(run.attack.border, tile);
        assert forall|t: u32| #[trigger] result.attack.border.contains(t) implies still_open(
            result,
            after,
            t,
        ) by {
            if held.attack.border.contains(t) {
                assert(border_without(run.attack.border, tile).contains(t));
                assert(still_open(run, board, t));
                lemma_takeable_stays(board, id, target, t, tile);
            } else {
                let i = choose|i: int| 0 <= i < prey.len() && (#[trigger] prey[i]).0 == t;
                assert(takeable(after, id, target, prey[i].0));
            }
        }
    } else {
        assert forall|t: u32| #[trigger] result.attack.border.contains(t) implies still_open(
            result,
            after,
            t,
        ) by {
            assert(run.attack.border.contains(t));
            assert(still_open(run, board, t));
            lemma_takeable_stays(board, id, target, t, tile);
        }
    }
    assert forall|t: u32| #[trigger] result.attack.border.contains(t) implies !held_by(
        after,
        id,
        t,
    ) by {
        assert(still_open(result, after, t));
    }
}

/// A move keeps the border in sync with the board.
pub proof fn lemma_advance_keeps_border(run: RunView, board: Board, budget: Quantity)
    requires
        border_in_sync(run, board),
        run.attacker.id < UNCLAIMED,
        of_match(board.match_id, run.attacker.owned_chunks),
    ensures
        border_in_sync(advanced(run, board, budget).0, board),
{
    let border = attack_border(
        board,
        run.attacker.id,
        run.attack.target,
        run.tick,
        run.attacker.owned_chunks,
    );
    let after = advanced(run, board, budget).0;
    lemma_border_sound(
        board,
        run.attacker.id,
        run.attack.target,
        run.tick,
        run.attacker.owned_chunks,
    );
    assert forall|t: u32| #[trigger] after.attack.border.contains(t) implies still_open(
        after,
        board,
        t,
    ) by {
        if !run.attack.border.contains(t) {
            let i = choose|i: int| 0 <= i < tiles_of(border).len() && tiles_of(border)[i] == t;
            assert(on_front(board, run.attacker.id, run.attack.target, border[i].0));
        } else {
            assert(still_open(run, board, t));
        }
    }
}

/// A turn of an attack in its step: the budget that it has left, and what its fight leaves, if it
/// comes to one.
pub struct Turn {
    pub budget: Quantity,
    pub outcome: CombatOutcome,
}

/// An attack in the course of its step, and the board as it is then.
#[verifier::ext_equal]
pub struct Play {
    pub run: RunView,
    pub board: Board,
    /// Whether the step is over for the attack.
    pub over: bool,
}

/// The attack after a turn: it makes a move, and where that leads to a fight, the outcome is booked.
pub open spec fn after_turn(play: Play, turn: Turn) -> Play {
    let (run, action) = advanced(play.run, play.board, turn.budget);
    if play.over {
        play
    } else {
        match action {
            AttackAction::Again => Play { run, ..play },
            AttackAction::Combat { tile, terrain } => Play {
                run: resolved(run, play.board, tile, turn.outcome),
                board: board_after(run, play.board, tile),
                over: spent(turn.outcome.attack_troops.at_least_zero_spec()),
            },
            _ => Play { run, over: true, ..play },
        }
    }
}

/// The attack after some turns.
pub open spec fn after_turns(play: Play, turns: Seq<Turn>) -> Play
    decreases turns.len(),
{
    if turns.len() == 0 {
        play
    } else {
        after_turn(after_turns(play, turns.drop_last()), turns.last())
    }
}

/// A fight leaves the attack with its attacker and its target.
proof fn lemma_resolved_front(run: RunView, board: Board, tile: u32, outcome: CombatOutcome)
    ensures
        ({
            let result = resolved(run, board, tile, outcome);
            &&& result.attacker.id == run.attacker.id
            &&& result.attack.target == run.attack.target
            &&& forall|e: (i32, u32)| #[trigger]
                run.queue.contains(e) ==> result.queue.contains(e)
            &&& forall|e: (i32, u32)| #[trigger]
                result.queue.contains(e) ==> run.queue.contains(e) || !run.border_set.contains(e.1)
                    || e.1 == tile
            &&& forall|t: u32| #[trigger]
                run.border_set.contains(t) && t != tile ==> result.border_set.contains(t)
            &&& of_match(board.match_id, run.attacker.owned_chunks) ==> of_match(
                board.match_id,
                result.attacker.owned_chunks,
            )
        }),
{
    let tx = tile as int % SIM_W as int;
    let ty = tile as int / SIM_W as int;
    let after = board.claimed(tx, ty, run.attacker.id);
    if board.has_tile(tx, ty) && capturable(run.attack.target, board.owner_at(tx, ty)) {
        let held = narrowed(booked(fought(run, outcome), after, tx, ty), tile);
        let prey = prey_around(after, run.attacker.id, run.attack.target, tx, ty, run.tick, 4);
        lemma_widened_front(held, prey, prey.len() as int);
        lemma_chunk_in_range(tx, ty);
        lemma_chunk_key(
            board.match_id,
            chunk_index(tx / CHUNK_SIZE as int, ty / CHUNK_SIZE as int),
        );
        let result = resolved(run, board, tile, outcome);
        assert forall|e: (i32, u32)| #[trigger] run.queue.contains(e) implies result.queue.contains(
            e,
        ) by {
            assert(held.queue.contains(e));
        }
        assert forall|e: (i32, u32)| #[trigger] result.queue.contains(e) implies run.queue.contains(
            e,
        ) || !run.border_set.contains(e.1) || e.1 == tile by {
            assert(held.queue.contains(e) || !held.border_set.contains(e.1));
        }
        assert forall|t: u32| #[trigger]
            run.border_set.contains(t) && t != tile implies result.border_set.contains(t) by {
            assert(held.border_set.contains(t));
        }
        if of_match(board.match_id, run.attacker.owned_chunks) {
            let chunks = result.attacker.owned_chunks;
            assert forall|i: int| 0 <= i < chunks.len() implies (#[trigger] chunks[i]) as int
                / 0x1_0000_0000 == board.match_id as int % 0x1_0000_0000 by {
                if i < run.attacker.owned_chunks.len() {
                    assert(chunks[i] == run.attacker.owned_chunks[i]);
                }
            }
        }
    }
}

/// Through a whole step, the border of an attack stays in sync with the board: every tile in it is
/// the target's and next to one of the attacker's, so no captured tile stays.
pub proof fn lemma_step_keeps_border(play: Play, turns: Seq<Turn>)
    requires
        border_in_sync(play.run, play.board),
        play.run.attacker.id < UNCLAIMED,
        play.run.attacker.id != play.run.attack.target,
        of_match(play.board.match_id, play.run.attacker.owned_chunks),
    ensures
        ({
            let end = after_turns(play, turns);
            &&& border_in_sync(end.run, end.board)
            &&& end.run.attacker.id == play.run.attacker.id
            &&& end.run.attack.target == play.run.attack.target
            &&& end.board.match_id == play.board.match_id
            &&& of_match(end.board.match_id, end.run.attacker.owned_chunks)
        }),
    decreases turns.len(),
{
    if turns.len() > 0 {
        lemma_step_keeps_border(play, turns.drop_last());
        let before = after_turns(play, turns.drop_last());
        let turn = turns.last();
        let (run, action) = advanced(before.run, before.board, turn.budget);
        lemma_advance_keeps_border(before.run, before.board, turn.budget);
        if let AttackAction::Combat { tile, terrain } = action {
            lemma_resolve_keeps_border(run, before.board, tile, turn.outcome);
            lemma_resolved_front(run, before.board, tile, turn.outcome);
        }
    }
}

/// Does an entry wait in the queue, its tile open, while no entry of another tile comes before it?
spec fn waits(play: Play, entry: (i32, u32), other: u32) -> bool {
    &&& play.run.queue.contains(entry)
    &&& still_open(play.run, play.board, entry.1)
    &&& play.board.has_tile(entry.1 as int % SIM_W as int, entry.1 as int / SIM_W as int)
    &&& play.run.border_set.contains(other)
    &&& !held_by(play.board, play.run.attacker.id, other)
    &&& forall|e: (i32, u32)| #[trigger]
        play.run.queue.contains(e) && e.1 == other ==> entry.0 < e.0
}

/// An entry that waits goes on waiting, or its tile is captured.
proof fn lemma_turn_waits(play: Play, turn: Turn, entry: (i32, u32), other: u32)
    requires
        waits(play, entry, other),
        entry.1 != other,
        play.run.attacker.id < UNCLAIMED,
    ensures
        ({
            let after = after_turn(play, turn);
            waits(after, entry, other) || held_by(after.board, play.run.attacker.id, entry.1)
        }),
{
    let id = play.run.attacker.id;
    let target = play.run.attack.target;
    let queue = play.run.queue;
    let (run, action) = advanced(play.run, play.board, turn.budget);
    lemma_first_entry_exists(queue);
    let first = first_entry(queue);
    assert(comes_first(first, entry));
    assert(first.1 != other);
    if let AttackAction::Combat { tile, terrain } = action {
        assert(tile == first.1);
        lemma_held_stays(play.board, id, entry.1, tile);
        lemma_held_stays(play.board, id, other, tile);
        lemma_resolved_front(run, play.board, tile, turn.outcome);
        if tile != entry.1 {
            lemma_takeable_stays(play.board, id, target, entry.1, tile);
            assert(run.queue.contains(entry));
            let after = after_turn(play, turn);
            if !play.over {
                assert forall|e: (i32, u32)| #[trigger]
                    after.run.queue.contains(e) && e.1 == other implies entry.0 < e.0 by {
                    assert(run.border_set.contains(other));
                    assert(run.queue.contains(e));
                    assert(queue.contains(e));
                }
                assert(run.border_set.contains(other));
                assert(waits(after, entry, other));
            }
        }
    } else if action is Again {
        assert(first.1 != entry.1);
        assert(run.queue.contains(entry));
        assert forall|e: (i32, u32)| #[trigger] run.queue.contains(e) implies queue.contains(
            e,
        ) by {}
    }
}

/// The attacker of an attack and what it holds stay through a turn.
proof fn lemma_turn_keeps_held(play: Play, turn: Turn, t: u32)
    requires
        play.run.attacker.id < UNCLAIMED,
    ensures
        ({
            let after = after_turn(play, turn);
            &&& after.run.attacker.id == play.run.attacker.id
            &&& held_by(play.board, play.run.attacker.id, t) ==> held_by(
                after.board,
                play.run.attacker.id,
                t,
            )
        }),
{
    let (run, action) = advanced(play.run, play.board, turn.budget);
    if let AttackAction::Combat { tile, terrain } = action {
        lemma_held_stays(play.board, play.run.attacker.id, t, tile);
        lemma_resolved_front(run, play.board, tile, turn.outcome);
    }
}

/// Over some turns, the tile of an entry that waits is captured before the other.
proof fn lemma_turns_in_order(play: Play, turns: Seq<Turn>, entry: (i32, u32), other: u32)
    requires
        waits(play, entry, other),
        entry.1 != other,
        play.run.attacker.id < UNCLAIMED,
    ensures
        ({
            let end = after_turns(play, turns);
            &&& end.run.attacker.id == play.run.attacker.id
            &&& waits(end, entry, other) || held_by(end.board, play.run.attacker.id, entry.1)
        }),
    decreases turns.len(),
{
    if turns.len() > 0 {
        lemma_turns_in_order(play, turns.drop_last(), entry, other);
        let before = after_turns(play, turns.drop_last());
        let turn = turns.last();
        lemma_turn_keeps_held(before, turn, entry.1);
        if waits(before, entry, other) {
            lemma_turn_waits(before, turn, entry, other);
        }
    }
}

/// In a step, an attack takes the tile with the lower priority value first: of two stored tiles that
/// are open at the start, if the later one is captured, so is the earlier one.
pub proof fn lemma_lowest_first(
    attack: AttackView,
    attacker: PlayerView,
    target: Option<PlayerView>,
    tick: u64,
    board: Board,
    turns: Seq<Turn>,
    i: int,
    j: int,
)
    requires
        attacker.id < UNCLAIMED,
        attacker.id != attack.target,
        attack.to_conquer_tiles.no_duplicates(),
        attack.to_conquer_tiles.len() == attack.to_conquer_priorities.len(),
        0 <= i < attack.to_conquer_tiles.len(),
        0 <= j < attack.to_conquer_tiles.len(),
        attack.border.contains(attack.to_conquer_tiles[j]),
        attack.to_conquer_priorities[i] < attack.to_conquer_priorities[j],
        takeable(board, attacker.id, attack.target, attack.to_conquer_tiles[i]),
        takeable(board, attacker.id, attack.target, attack.to_conquer_tiles[j]),
        board.has_tile(
            attack.to_conquer_tiles[i] as int % SIM_W as int,
            attack.to_conquer_tiles[i] as int / SIM_W as int,
        ),
    ensures
        ({
            let start = Play {
                run: opened_run(attack, attacker, target, tick),
                board,
                over: false,
            };
            let end = after_turns(start, turns);
            held_by(end.board, attacker.id, attack.to_conquer_tiles[j]) ==> held_by(
                end.board,
                attacker.id,
                attack.to_conquer_tiles[i],
            )
        }),
{
    broadcast use vstd::seq_lib::group_to_multiset_ensures;

    let start = Play { run: opened_run(attack, attacker, target, tick), board, over: false };
    let entries = stored_entries(attack.to_conquer_tiles, attack.to_conquer_priorities);
    let entry = (attack.to_conquer_priorities[i], attack.to_conquer_tiles[i]);
    let other = attack.to_conquer_tiles[j];
    assert(entries[i] == entry);
    assert(entries.contains(entry));
    assert forall|e: (i32, u32)| #[trigger]
        start.run.queue.contains(e) && e.1 == other implies entry.0 < e.0 by {
        assert(entries.contains(e));
        let k = choose|k: int| 0 <= k < entries.len() && entries[k] == e;
        assert(attack.to_conquer_tiles[k] == other);
        assert(k == j);
    }
    assert(waits(start, entry, other));
    lemma_turns_in_order(start, turns, entry, other);
}

} // verus!
