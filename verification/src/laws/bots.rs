//! When bots attack, and whom.

use vstd::prelude::*;

use crate::bots::{
    border_seen, borders, bot_move, bot_target, faces, faces_at, is_attacking, lemma_bot_target,
    lemma_seen_enough, may_attack, next_turn, BotMove, Sighting,
};
use crate::chunks::Board;
use crate::front::{beside, cell_tile, lemma_cell_tile_held, of_match};
use crate::grid::{
    cell_of, chunk_index, lemma_chunk_in_range, lemma_chunk_key, lemma_tile_cell, tile_chunk_key,
    CHUNK_SIZE,
};
use crate::laws::fronts::{adjacent, lemma_neighbours};
use crate::rng::seed_of;
use crate::tables::{Attack, Player, PlayerView};

verus! {

/// A living, spawned bot whose cooldown is over takes its turn, unless the match has an attack of the
/// bot itself that does not retreat. Attacks of others, its attackers among them, never keep it from
/// its turn; and nobody else takes one.
pub proof fn lemma_bot_takes_turn(bot: Player, attacks: Seq<Attack>, tick: u64)
    ensures
        may_attack(bot, attacks, tick) <==> {
            &&& bot.is_bot
            &&& bot.alive
            &&& bot.spawn_tile is Some
            &&& bot.next_attack_tick <= tick
            &&& forall|i: int|
                0 <= i < attacks.len() ==> (#[trigger] attacks[i]).attacker != bot.id
                    || attacks[i].retreating
        },
{
    if bot.is_bot && bot.alive && bot.spawn_tile is Some && bot.next_attack_tick <= tick {
        if is_attacking(attacks, bot.id) {
            let i = choose|i: int|
                0 <= i < attacks.len() && (#[trigger] attacks[i]).attacker == bot.id
                    && !attacks[i].retreating;
            assert(attacks[i].attacker == bot.id);
        }
    }
}

/// After its turn a bot waits 40 to 79 ticks, as its seed at that tick says.
pub proof fn lemma_bot_waits(match_id: u64, tick: u64, bot: u32)
    ensures
        tick + 40 <= next_turn(match_id, tick, bot) < tick + 80,
        (next_turn(match_id, tick, bot) - tick - 40 - seed_of(match_id, tick, bot as u64)) % 40
            == 0,
{
    let seed = seed_of(match_id, tick, bot as u64) as int;
    assert(seed == 40 * (seed / 40) + seed % 40);
    assert((seed % 40 - seed) % 40 == 0);
}

/// Whom a tile stands for as a bot's target: its holder, if that is not the bot, or the wilderness.
pub open spec fn stands_for(owner: Option<u32>, bot: u32, target: u32) -> bool {
    match owner {
        None => target == 0,
        Some(o) => o == target && o != bot,
    }
}

/// The place of the cell of a tile among the cells of tracked chunks, and that the bot's tile is found
/// there.
proof fn lemma_cell_place(board: Board, bot: u32, chunks: Seq<u64>, tx: int, ty: int) -> (k: int)
    requires
        0 <= tx < 1350,
        0 <= ty < 675,
        board.owner_at(tx, ty) == Some(bot),
        chunks.contains(tile_chunk_key(board.match_id, tx, ty)),
    ensures
        0 <= k < chunks.len() * 1024,
        cell_tile(board, bot, chunks[k / 1024], k % 1024) == Some((tx, ty)),
{
    let key = tile_chunk_key(board.match_id, tx, ty);
    let c = choose|c: int| 0 <= c < chunks.len() && chunks[c] == key;
    let cell = cell_of(tx, ty);
    lemma_chunk_in_range(tx, ty);
    lemma_tile_cell(tx, ty);
    lemma_chunk_key(
        board.match_id,
        chunk_index(tx / CHUNK_SIZE as int, ty / CHUNK_SIZE as int),
    );
    let k = c * 1024 + cell;
    assert(k / 1024 == c && k % 1024 == cell);
    k
}

/// A bot that holds a tile, in a chunk that it tracks, beside land of somebody else or of nobody, has a
/// target.
pub proof fn lemma_bot_has_target(
    board: Board,
    bot: PlayerView,
    tx: int,
    ty: int,
    nx: int,
    ny: int,
)
    requires
        0 <= tx < 1350,
        0 <= ty < 675,
        adjacent(tx, ty, nx, ny),
        board.owner_at(tx, ty) == Some(bot.id),
        bot.owned_chunks.contains(tile_chunk_key(board.match_id, tx, ty)),
        board.terrain_at(nx, ny) != 0,
        board.owner_at(nx, ny) != Some(bot.id),
    ensures
        bot_target(board, bot) is Some,
{
    let n = bot.owned_chunks.len() as int * 1024;
    let k = lemma_cell_place(board, bot.id, bot.owned_chunks, tx, ty);
    lemma_neighbours(tx, ty, nx, ny);
    let d = choose|d: int| 0 <= d < 4 && #[trigger] beside(tx, ty, d) == (nx, ny);
    let t = match board.owner_at(nx, ny) {
        None => 0u32,
        Some(o) => o,
    };
    assert(faces_at(board, bot.id, bot.owned_chunks, k, d, t));
    assert(borders(board, bot.id, bot.owned_chunks, n, t));
    lemma_bot_target(board, bot);
}

/// Does a bot hold a tile beside land of this target?
pub open spec fn has_border_with(board: Board, bot: u32, target: u32) -> bool {
    exists|tx: int, ty: int, nx: int, ny: int|
        #![trigger board.owner_at(tx, ty), board.owner_at(nx, ny)]
        board.owner_at(tx, ty) == Some(bot) && adjacent(tx, ty, nx, ny) && board.terrain_at(nx, ny)
            != 0 && stands_for(board.owner_at(nx, ny), bot, target)
}

/// A bot never picks somebody that it has no border with, nor itself.
pub proof fn lemma_bot_targets_border(board: Board, bot: PlayerView, target: u32)
    requires
        bot.id < 255,
        of_match(board.match_id, bot.owned_chunks),
        bot_target(board, bot) == Some(target),
    ensures
        has_border_with(board, bot.id, target),
{
    let n = bot.owned_chunks.len() as int * 1024;
    let chunks = bot.owned_chunks;
    lemma_bot_target(board, bot);
    let (k, d) = choose|k: int, d: int|
        0 <= k < n && 0 <= d < 4 && #[trigger] faces_at(board, bot.id, chunks, k, d, target);
    let (tx, ty) = cell_tile(board, bot.id, chunks[k / 1024], k % 1024)->Some_0;
    lemma_cell_tile_held(board, bot.id, chunks[k / 1024], k % 1024);
    let (nx, ny) = beside(tx, ty, d);
    lemma_neighbours(tx, ty, nx, ny);
    assert(beside(tx, ty, d) == (nx, ny));
    assert(board.owner_at(tx, ty) == Some(bot.id));
    assert(stands_for(board.owner_at(nx, ny), bot.id, target));
}

/// Looking around a tile shows all that the tile faces, and forgets nothing.
proof fn lemma_around_shows(seen: Sighting, board: Board, bot: u32, tx: int, ty: int, n: int)
    requires
        0 <= n <= 4,
    ensures
        ({
            let after = seen.with_around(board, bot, tx, ty, n);
            &&& seen.wild ==> after.wild
            &&& forall|t: u32| #[trigger] seen.players.contains(t) ==> after.players.contains(t)
            &&& seen.players.len() <= after.players.len()
            &&& forall|d: int, t: u32|
                0 <= d < n && #[trigger] faces(board, bot, beside(tx, ty, d), t) ==> (t == 0
                    && after.wild) || after.players.contains(t)
        }),
    decreases n,
{
    if n > 0 {
        lemma_around_shows(seen, board, bot, tx, ty, n - 1);
        let before = seen.with_around(board, bot, tx, ty, n - 1);
        let after = seen.with_around(board, bot, tx, ty, n);
        assert forall|t: u32| #[trigger] before.players.contains(t) implies after.players.contains(
            t,
        ) by {
            let i = choose|i: int| 0 <= i < before.players.len() && before.players[i] == t;
            assert(after.players[i] == t);
        }
        assert forall|t: u32| #[trigger] seen.players.contains(t) implies after.players.contains(
            t,
        ) by {
            assert(before.players.contains(t));
        }
        assert forall|d: int, t: u32|
            0 <= d < n && #[trigger] faces(board, bot, beside(tx, ty, d), t) implies (t == 0
            && after.wild) || after.players.contains(t) by {
            if d == n - 1 {
                if board.owner_at(beside(tx, ty, d).0, beside(tx, ty, d).1) is Some
                    && !before.players.contains(t) {
                    assert(after.players[before.players.len() as int] == t);
                }
            } else {
                assert((t == 0 && before.wild) || before.players.contains(t));
            }
        }
    }
}

/// A bot that has not seen four players and wilderness has seen all that it faces.
proof fn lemma_seen_all(board: Board, bot: u32, chunks: Seq<u64>, n: int)
    requires
        0 <= n,
        !(border_seen(board, bot, chunks, n).players.len() >= 4 && border_seen(
            board,
            bot,
            chunks,
            n,
        ).wild),
    ensures
        ({
            let seen = border_seen(board, bot, chunks, n);
            forall|k: int, d: int, t: u32|
                0 <= k < n && 0 <= d < 4 && #[trigger] faces_at(board, bot, chunks, k, d, t) ==> (t
                    == 0 && seen.wild) || seen.players.contains(t)
        }),
    decreases n,
{
    if n > 0 {
        let before = border_seen(board, bot, chunks, n - 1);
        let seen = border_seen(board, bot, chunks, n);
        let tile = cell_tile(board, bot, chunks[(n - 1) / 1024], (n - 1) % 1024);
        if tile is Some {
            lemma_around_shows(before, board, bot, tile->Some_0.0, tile->Some_0.1, 4);
        }
        lemma_seen_all(board, bot, chunks, n - 1);
        assert forall|k: int, d: int, t: u32|
            0 <= k < n && 0 <= d < 4 && #[trigger] faces_at(board, bot, chunks, k, d, t) implies (t
            == 0 && seen.wild) || seen.players.contains(t) by {
            if k == n - 1 {
                assert(faces(board, bot, beside(tile->Some_0.0, tile->Some_0.1, d), t));
            } else {
                assert((t == 0 && before.wild) || before.players.contains(t));
            }
        }
    }
}

/// Unless it has seen four players and wilderness already, a bot picks among all that it has a border
/// with in its tracked chunks: everybody beside its tiles, and the wilderness there.
pub proof fn lemma_bot_sees_everybody(
    board: Board,
    bot: u32,
    chunks: Seq<u64>,
    tx: int,
    ty: int,
    nx: int,
    ny: int,
    target: u32,
)
    requires
        0 <= tx < 1350,
        0 <= ty < 675,
        adjacent(tx, ty, nx, ny),
        board.owner_at(tx, ty) == Some(bot),
        chunks.contains(tile_chunk_key(board.match_id, tx, ty)),
        board.terrain_at(nx, ny) != 0,
        stands_for(board.owner_at(nx, ny), bot, target),
        ({
            let seen = border_seen(board, bot, chunks, chunks.len() as int * 1024);
            seen.players.len() < 4 || !seen.wild
        }),
    ensures
        border_seen(board, bot, chunks, chunks.len() as int * 1024).options().contains(target),
{
    let n = chunks.len() as int * 1024;
    let seen = border_seen(board, bot, chunks, n);
    let k = lemma_cell_place(board, bot, chunks, tx, ty);
    lemma_neighbours(tx, ty, nx, ny);
    let d = choose|d: int| 0 <= d < 4 && #[trigger] beside(tx, ty, d) == (nx, ny);
    lemma_seen_all(board, bot, chunks, n);
    assert(faces_at(board, bot, chunks, k, d, target));
    let options = seen.options();
    if target == 0 && seen.wild {
        assert(options[seen.players.len() as int] == 0);
    } else {
        let i = choose|i: int| 0 <= i < seen.players.len() && seen.players[i] == target;
        assert(options[i] == target);
    }
}

/// Once a bot has seen four players and wilderness, it looks no further.
pub proof fn lemma_bot_looks_no_further(board: Board, bot: u32, chunks: Seq<u64>, k: int, n: int)
    requires
        0 <= k <= n,
        border_seen(board, bot, chunks, k).players.len() >= 4,
        border_seen(board, bot, chunks, k).wild,
    ensures
        border_seen(board, bot, chunks, n) == border_seen(board, bot, chunks, k),
{
    lemma_seen_enough(board, bot, chunks, k, n);
}

/// Which of its options a bot picks is up to its seed alone: the one at the seed's remainder.
pub proof fn lemma_bot_picks_by_seed(board: Board, bot: PlayerView)
    ensures
        ({
            let options = border_seen(
                board,
                bot.id,
                bot.owned_chunks,
                bot.owned_chunks.len() as int * 1024,
            ).options();
            let seed = seed_of(bot.match_id, 0, bot.id as u64) as usize as int;
            &&& options.len() == 0 ==> bot_target(board, bot) is None
            &&& options.len() > 0 ==> bot_target(board, bot) == Some(
                options[seed % options.len() as int],
            )
        }),
{
}

/// A bot counts everybody along its border once, itself never.
pub proof fn lemma_bot_counts_once(board: Board, bot: u32, chunks: Seq<u64>, n: int)
    ensures
        ({
            let seen = border_seen(board, bot, chunks, n);
            &&& seen.players.no_duplicates()
            &&& !seen.players.contains(bot)
        }),
    decreases n,
{
    if n > 0 {
        lemma_bot_counts_once(board, bot, chunks, n - 1);
        let before = border_seen(board, bot, chunks, n - 1);
        if let Some((tx, ty)) = cell_tile(board, bot, chunks[(n - 1) / 1024], (n - 1) % 1024) {
            lemma_around_counts_once(before, board, bot, tx, ty, 4);
        }
    }
}

/// So it does around one tile.
proof fn lemma_around_counts_once(
    seen: Sighting,
    board: Board,
    bot: u32,
    tx: int,
    ty: int,
    n: int,
)
    requires
        seen.players.no_duplicates(),
        !seen.players.contains(bot),
    ensures
        ({
            let after = seen.with_around(board, bot, tx, ty, n);
            &&& after.players.no_duplicates()
            &&& !after.players.contains(bot)
        }),
    decreases n,
{
    if n > 0 {
        lemma_around_counts_once(seen, board, bot, tx, ty, n - 1);
        let before = seen.with_around(board, bot, tx, ty, n - 1);
        let after = seen.with_around(board, bot, tx, ty, n);
        if after.players.contains(bot) {
            let i = choose|i: int| 0 <= i < after.players.len() && after.players[i] == bot;
            if i < before.players.len() {
                assert(before.players[i] == bot);
            }
        }
    }
}

/// A bot that takes its turn picks its target and waits for its next turn; any other bot does nothing.
pub proof fn lemma_bot_moves(
    board: Board,
    bot: Player,
    attacks: Seq<Attack>,
    match_id: u64,
    tick: u64,
)
    requires
        tick + 80 <= u64::MAX,
        bot.id < 255,
        of_match(board.match_id, bot.owned_chunks@),
    ensures
        ({
            let act = bot_move(board, bot, attacks, match_id, tick);
            let idle = !bot.is_bot || !bot.alive || bot.spawn_tile is None || bot.next_attack_tick
                > tick || exists|i: int|
                0 <= i < attacks.len() && (#[trigger] attacks[i]).attacker == bot.id
                    && !attacks[i].retreating;
            &&& act is Wait <==> idle
            &&& act matches BotMove::Turn { target, next_attack_tick } ==> {
                &&& tick + 40 <= next_attack_tick < tick + 80
                &&& target is Some ==> has_border_with(board, bot.id, target->Some_0)
            }
        }),
{
    lemma_bot_takes_turn(bot, attacks, tick);
    lemma_bot_waits(match_id, tick, bot.id);
    if let Some(target) = bot_target(board, bot@) {
        lemma_bot_targets_border(board, bot@, target);
    }
}

} // verus!
