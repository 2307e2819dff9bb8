//! How bots choose whom to attack, and when.

use vstd::prelude::*;

use crate::chunks::{Board, ChunkCache};
use crate::front::{beside, cell_tile, neighbor};
use crate::grid::{local_chunk_idx, CHUNKS_X, CHUNK_SIZE, CHUNK_TILES, SIM_H, SIM_W};
use crate::rng::{rng_seed, seed_of};
use crate::tables::{Attack, Player, PlayerView, TARGET_WILDERNESS, UNCLAIMED};

verus! {

/// A bot waits at least this many ticks between two attacks.
pub const BOT_ATTACK_COOLDOWN_MIN_TICKS: u64 = 40;

/// A bot waits fewer ticks than this between two attacks.
pub const BOT_ATTACK_COOLDOWN_MAX_TICKS: u64 = 80;

/// What a bot has seen along its border.
#[verifier::ext_equal]
pub struct Sighting {
    /// The players, in the order in which they were first seen.
    pub players: Seq<u32>,
    /// Whether there was unclaimed land.
    pub wild: bool,
}

impl Sighting {
    /// Has the bot seen enough to choose?
    pub open spec fn enough(self) -> bool {
        self.players.len() >= 4 && self.wild
    }

    /// What the bot has seen after looking at a neighbour of a tile.
    pub open spec fn with_beside(self, board: Board, bot: u32, tx: int, ty: int, d: int) -> Sighting {
        let (nx, ny) = beside(tx, ty, d);
        if !board.is_land(nx, ny) {
            self
        } else {
            match board.owner_at(nx, ny) {
                None => Sighting { wild: true, ..self },
                Some(o) => if o != bot && !self.players.contains(o) {
                    Sighting { players: self.players.push(o), ..self }
                } else {
                    self
                },
            }
        }
    }

    /// What the bot has seen after looking at the first `n` neighbours of a tile.
    pub open spec fn with_around(
        self,
        board: Board,
        bot: u32,
        tx: int,
        ty: int,
        n: int,
    ) -> Sighting
        decreases n,
    {
        if n <= 0 {
            self
        } else {
            self.with_around(board, bot, tx, ty, n - 1).with_beside(board, bot, tx, ty, n - 1)
        }
    }

    /// What the bot can attack.
    pub open spec fn options(self) -> Seq<u32> {
        if self.wild {
            self.players.push(TARGET_WILDERNESS)
        } else {
            self.players
        }
    }
}

/// What a bot has seen at the first `n` cells of the chunks that it tracks. It stops looking once
/// it has seen enough.
pub open spec fn border_seen(board: Board, bot: u32, chunks: Seq<u64>, n: int) -> Sighting
    decreases n,
{
    if n <= 0 {
        Sighting { players: Seq::empty(), wild: false }
    } else {
        let before = border_seen(board, bot, chunks, n - 1);
        match cell_tile(board, bot, chunks[(n - 1) / 1024], (n - 1) % 1024) {
            Some((tx, ty)) if !before.enough() => before.with_around(board, bot, tx, ty, 4),
            _ => before,
        }
    }
}

/// The target that a bot picks, if there is any.
pub open spec fn bot_target(board: Board, bot: PlayerView) -> Option<u32> {
    let options = border_seen(
        board,
        bot.id,
        bot.owned_chunks,
        bot.owned_chunks.len() as int * 1024,
    ).options();
    if options.len() == 0 {
        None
    } else {
        Some(
            options[(seed_of(bot.match_id, 0, bot.id as u64) as usize) as int
                % options.len() as int],
        )
    }
}

/// Has a player an attack that goes on?
pub open spec fn is_attacking(attacks: Seq<Attack>, player: u32) -> bool {
    exists|i: int|
        0 <= i < attacks.len() && (#[trigger] attacks[i]).attacker == player
            && !attacks[i].retreating
}

/// Is it a bot's turn to attack?
pub open spec fn may_attack(bot: Player, attacks: Seq<Attack>, tick: u64) -> bool {
    &&& bot.is_bot
    &&& bot.alive
    &&& bot.spawn_tile is Some
    &&& bot.next_attack_tick <= tick
    &&& !is_attacking(attacks, bot.id)
}

/// The tick from which a bot that has had its turn may attack again.
pub open spec fn next_turn(match_id: u64, tick: u64, bot: u32) -> int {
    tick + BOT_ATTACK_COOLDOWN_MIN_TICKS + seed_of(match_id, tick, bot as u64) as int % (
    BOT_ATTACK_COOLDOWN_MAX_TICKS - BOT_ATTACK_COOLDOWN_MIN_TICKS)
}

/// What a bot does in a step.
#[derive(Clone, Copy, PartialEq, Eq, Structural, Debug)]
pub enum BotMove {
    /// It is not its turn.
    Wait,
    /// It attacks the target, if there is one, and waits until the tick, whatever comes of it.
    Turn { target: Option<u32>, next_attack_tick: u64 },
}

/// Is the player in the list?
fn lists_player(players: &Vec<u32>, player: u32) -> (r: bool)
    ensures
        r == players@.contains(player),
{
    let mut i: usize = 0;
    while i < players.len()
        invariant
            i <= players@.len(),
            forall|j: int| 0 <= j < i ==> players@[j] != player,
        decreases players@.len() - i,
    {
        if players[i] == player {
            return true;
        }
        i += 1;
    }
    false
}

/// What a bot has seen so far.
struct Lookout {
    players: Vec<u32>,
    wild: bool,
}

impl Lookout {
    /// What has been seen.
    spec fn sighting(&self) -> Sighting {
        Sighting { players: self.players@, wild: self.wild }
    }

    /// Looks at the four neighbours of a tile.
    fn look_around(&mut self, cache: &ChunkCache, bot: u32, tx: u32, ty: u32)
        requires
            cache.wf(),
        ensures
            final(self).sighting() == old(self).sighting().with_around(
                cache.board(),
                bot,
                tx as int,
                ty as int,
                4,
            ),
    {
        let mut d: u32 = 0;
        while d < 4
            invariant
                d <= 4,
                cache.wf(),
                self.sighting() == old(self).sighting().with_around(
                    cache.board(),
                    bot,
                    tx as int,
                    ty as int,
                    d as int,
                ),
            decreases 4 - d,
        {
            if let Some((nx, ny)) = neighbor(tx, ty, d) {
                if cache.is_land(nx, ny) {
                    match cache.get_owner(nx, ny) {
                        None => {
                            self.wild = true;
                        },
                        Some(o) => {
                            if o != bot && !lists_player(&self.players, o) {
                                self.players.push(o);
                            }
                        },
                    }
                }
            }
            d += 1;
        }
    }
}

/// Once a bot has seen enough, it sees no more.
pub proof fn lemma_seen_enough(board: Board, bot: u32, chunks: Seq<u64>, k: int, n: int)
    requires
        0 <= k <= n,
        border_seen(board, bot, chunks, k).enough(),
    ensures
        border_seen(board, bot, chunks, n) == border_seen(board, bot, chunks, k),
    decreases n - k,
{
    if k < n {
        lemma_seen_enough(board, bot, chunks, k, n - 1);
    }
}

/// Cells without a tile of the bot show it nothing.
proof fn lemma_seen_nothing(board: Board, bot: u32, chunks: Seq<u64>, k: int, n: int)
    requires
        0 <= k <= n,
        forall|j: int|
            #![trigger chunks[j / 1024], j % 1024]
            k <= j < n ==> cell_tile(board, bot, chunks[j / 1024], j % 1024) is None,
    ensures
        border_seen(board, bot, chunks, n) == border_seen(board, bot, chunks, k),
    decreases n - k,
{
    if k < n {
        lemma_seen_nothing(board, bot, chunks, k, n - 1);
        let j = n - 1;
        assert(cell_tile(board, bot, chunks[j / 1024], j % 1024) is None);
    }
}

/// Looks along a bot's border, chunk by chunk and cell by cell, until enough has been seen.
fn look_out(cache: &ChunkCache, bot: &Player) -> (r: Lookout)
    requires
        cache.wf(),
    ensures
        r.sighting() == border_seen(
            cache.board(),
            bot.id,
            bot.owned_chunks@,
            bot.owned_chunks@.len() as int * 1024,
        ),
{
    let mut seen: Lookout = Lookout { players: Vec::new(), wild: false };
    let bot_byte: u8 = bot.id as u8;
    let chunk_ids: &Vec<u64> = &bot.owned_chunks;
    let ghost board = cache.board();
    let ghost chunks = chunk_ids@;
    let ghost total = chunks.len() as int * 1024;
    let mut c: usize = 0;
    while c < chunk_ids.len()
        invariant
            cache.wf(),
            board == cache.board(),
            chunks == chunk_ids@,
            chunks == bot.owned_chunks@,
            bot_byte == bot.id as u8,
            total == chunks.len() * 1024,
            c <= chunks.len(),
            seen.sighting() == border_seen(board, bot.id, chunks, c * 1024),
        decreases chunks.len() - c,
    {
        let chunk_id: u64 = chunk_ids[c];
        let ghost start = c * 1024;
        if let Some(owners) = cache.clone_owners(chunk_id) {
            let local_idx: u32 = local_chunk_idx(chunk_id);
            let cx: u32 = local_idx % CHUNKS_X;
            let cy: u32 = local_idx / CHUNKS_X;
            let mut cell: u32 = 0;
            while cell < CHUNK_TILES
                invariant
                    cache.wf(),
                    board == cache.board(),
                    chunks == chunk_ids@,
                    chunks == bot.owned_chunks@,
                    bot_byte == bot.id as u8,
                    total == chunks.len() * 1024,
                    c < chunks.len(),
                    chunk_id == chunks[c as int],
                    start == c * 1024,
                    board.rows.contains_key(chunk_id),
                    owners@ == board.rows[chunk_id].owners,
                    local_idx == chunk_id as int % 0x1_0000_0000,
                    cx == local_idx as int % CHUNKS_X as int,
                    cy == local_idx as int / CHUNKS_X as int,
                    cell <= CHUNK_TILES,
                    seen.sighting() == border_seen(board, bot.id, chunks, start + cell),
                decreases CHUNK_TILES - cell,
            {
                if seen.players.len() >= 4 && seen.wild {
                    proof {
                        lemma_seen_enough(board, bot.id, chunks, start + cell, total);
                    }
                    return seen;
                }
                let idx: usize = cell as usize;
                let byte: u8 = if idx < owners.len() { owners[idx] } else { UNCLAIMED };
                let tx: u32 = cx * CHUNK_SIZE + cell % CHUNK_SIZE;
                let ty: u32 = cy * CHUNK_SIZE + cell / CHUNK_SIZE;
                assert((start + cell) / 1024 == c && (start + cell) % 1024 == cell);
                if byte == bot_byte && tx < SIM_W && ty < SIM_H {
                    assert(cell_tile(board, bot.id, chunk_id, cell as int) == Some(
                        (tx as int, ty as int),
                    ));
                    seen.look_around(cache, bot.id, tx, ty);
                } else {
                    assert(cell_tile(board, bot.id, chunk_id, cell as int) is None);
                }
                cell += 1;
            }
        } else {
            proof {
                assert forall|j: int|
                    #![trigger chunks[j / 1024], j % 1024]
                    start <= j < start + 1024 implies cell_tile(
                    board,
                    bot.id,
                    chunks[j / 1024],
                    j % 1024,
                ) is None by {
                    assert(j / 1024 == c);
                }
                lemma_seen_nothing(board, bot.id, chunks, start, start + 1024);
            }
        }
        c += 1;
    }
    seen
}

/// Picks a target for a bot: somebody along its border, or the wilderness there.
pub fn pick_bot_target(cache: &ChunkCache, bot: &Player) -> (r: Option<u32>)
    requires
        cache.wf(),
    ensures
        r == bot_target(cache.board(), bot@),
{
    let seen: Lookout = look_out(cache, bot);
    let mut options: Vec<u32> = seen.players;
    if seen.wild {
        options.push(TARGET_WILDERNESS);
    }
    if options.len() == 0 {
        return None;
    }
    let seed: u64 = rng_seed(bot.match_id, 0, bot.id as u64);
    let idx: usize = (seed as usize) % options.len();
    Some(options[idx])
}

/// Has a player an attack that goes on?
fn has_attack(attacks: &Vec<Attack>, player: u32) -> (r: bool)
    ensures
        r == is_attacking(attacks@, player),
{
    let mut i: usize = 0;
    while i < attacks.len()
        invariant
            i <= attacks@.len(),
            forall|j: int|
                0 <= j < i ==> (#[trigger] attacks@[j]).attacker != player
                    || attacks@[j].retreating,
        decreases attacks@.len() - i,
    {
        if attacks[i].attacker == player && !attacks[i].retreating {
            return true;
        }
        i += 1;
    }
    false
}

/// What a bot does in a step of its match.
pub open spec fn bot_move(
    board: Board,
    bot: Player,
    attacks: Seq<Attack>,
    match_id: u64,
    tick: u64,
) -> BotMove {
    if may_attack(bot, attacks, tick) {
        BotMove::Turn {
            target: bot_target(board, bot@),
            next_attack_tick: next_turn(match_id, tick, bot.id) as u64,
        }
    } else {
        BotMove::Wait
    }
}

/// Decides what a bot does in a step of its match.
pub fn bot_ai_tick(
    cache: &ChunkCache,
    bot: &Player,
    attacks: &Vec<Attack>,
    match_id: u64,
    current_tick: u64,
) -> (r: BotMove)
    requires
        cache.wf(),
        current_tick + BOT_ATTACK_COOLDOWN_MAX_TICKS <= u64::MAX,
    ensures
        r == bot_move(cache.board(), *bot, attacks@, match_id, current_tick),
        r is Turn ==> current_tick + BOT_ATTACK_COOLDOWN_MIN_TICKS <= r->next_attack_tick
            < current_tick + BOT_ATTACK_COOLDOWN_MAX_TICKS,
{
    if !bot.is_bot || !bot.alive || bot.spawn_tile.is_none() {
        return BotMove::Wait;
    }
    if bot.next_attack_tick > current_tick {
        return BotMove::Wait;
    }
    if has_attack(attacks, bot.id) {
        return BotMove::Wait;
    }
    let target: Option<u32> = pick_bot_target(cache, bot);
    let seed: u64 = rng_seed(match_id, current_tick, bot.id as u64);
    let offset: u64 = seed % (BOT_ATTACK_COOLDOWN_MAX_TICKS - BOT_ATTACK_COOLDOWN_MIN_TICKS);
    BotMove::Turn {
        target,
        next_attack_tick: current_tick + BOT_ATTACK_COOLDOWN_MIN_TICKS + offset,
    }
}

/// Is the point land of this target: of another player, or unclaimed for the wilderness?
pub open spec fn faces(board: Board, bot: u32, point: (int, int), target: u32) -> bool {
    board.is_land(point.0, point.1) && match board.owner_at(point.0, point.1) {
        None => target == TARGET_WILDERNESS,
        Some(o) => o == target && o != bot,
    }
}

/// Does a bot face the target at a cell of its tracked chunks, in one direction?
pub open spec fn faces_at(
    board: Board,
    bot: u32,
    chunks: Seq<u64>,
    k: int,
    d: int,
    target: u32,
) -> bool {
    match cell_tile(board, bot, chunks[k / 1024], k % 1024) {
        Some((tx, ty)) => faces(board, bot, beside(tx, ty, d), target),
        None => false,
    }
}

/// Does a bot face the target at one of the first `n` cells of its tracked chunks?
pub open spec fn borders(board: Board, bot: u32, chunks: Seq<u64>, n: int, target: u32) -> bool {
    exists|k: int, d: int|
        0 <= k < n && 0 <= d < 4 && #[trigger] faces_at(board, bot, chunks, k, d, target)
}

/// What looking around a tile shows.
proof fn lemma_around(seen: Sighting, board: Board, bot: u32, tx: int, ty: int, n: int)
    requires
        0 <= n <= 4,
    ensures
        ({
            let after = seen.with_around(board, bot, tx, ty, n);
            &&& forall|t: u32| #[trigger]
                after.options().contains(t) ==> seen.options().contains(t) || exists|d: int|
                    0 <= d < n && faces(board, bot, #[trigger] beside(tx, ty, d), t)
            &&& after.options().len() == 0 ==> seen.options().len() == 0 && forall|d: int, t: u32|
                0 <= d < n ==> !#[trigger] faces(board, bot, beside(tx, ty, d), t)
        }),
    decreases n,
{
    if n > 0 {
        lemma_around(seen, board, bot, tx, ty, n - 1);
        let before = seen.with_around(board, bot, tx, ty, n - 1);
        let after = seen.with_around(board, bot, tx, ty, n);
        let point = beside(tx, ty, n - 1);
        assert forall|t: u32| #[trigger] after.options().contains(t) implies before.options().contains(
            t,
        ) || faces(board, bot, point, t) by {
            let i = choose|i: int| 0 <= i < after.options().len() && after.options()[i] == t;
            if i < before.players.len() {
                assert(before.options()[i] == t);
            } else if before.wild && i == after.options().len() - 1 {
                assert(before.options()[before.players.len() as int] == t);
            }
        }
        assert(after.options().len() >= before.options().len());
    }
}

/// What a bot has seen, it faces; and where it has seen nothing, it faces nothing.
proof fn lemma_border_seen(board: Board, bot: u32, chunks: Seq<u64>, n: int)
    requires
        0 <= n,
    ensures
        ({
            let seen = border_seen(board, bot, chunks, n);
            &&& forall|t: u32| #[trigger]
                seen.options().contains(t) ==> borders(board, bot, chunks, n, t)
            &&& seen.options().len() == 0 ==> forall|t: u32|
                !#[trigger] borders(board, bot, chunks, n, t)
        }),
    decreases n,
{
    if n > 0 {
        lemma_border_seen(board, bot, chunks, n - 1);
        let before = border_seen(board, bot, chunks, n - 1);
        let seen = border_seen(board, bot, chunks, n);
        let tile = cell_tile(board, bot, chunks[(n - 1) / 1024], (n - 1) % 1024);
        if tile is Some && !before.enough() {
            lemma_around(before, board, bot, tile->Some_0.0, tile->Some_0.1, 4);
        }
        assert forall|t: u32| #[trigger] seen.options().contains(t) implies borders(
            board,
            bot,
            chunks,
            n,
            t,
        ) by {
            if before.options().contains(t) {
                assert(borders(board, bot, chunks, n - 1, t));
                let (k, d) = choose|k: int, d: int|
                    0 <= k < n - 1 && 0 <= d < 4 && #[trigger] faces_at(
                        board,
                        bot,
                        chunks,
                        k,
                        d,
                        t,
                    );
                assert(faces_at(board, bot, chunks, k, d, t));
            } else {
                let (tx, ty) = tile->Some_0;
                let d = choose|d: int|
                    0 <= d < 4 && faces(board, bot, #[trigger] beside(tx, ty, d), t);
                assert(faces_at(board, bot, chunks, n - 1, d, t));
            }
        }
        if seen.options().len() == 0 {
            assert forall|t: u32| !#[trigger] borders(board, bot, chunks, n, t) by {
                if borders(board, bot, chunks, n, t) {
                    let (k, d) = choose|k: int, d: int|
                        0 <= k < n && 0 <= d < 4 && #[trigger] faces_at(
                            board,
                            bot,
                            chunks,
                            k,
                            d,
                            t,
                        );
                    if k < n - 1 {
                        assert(borders(board, bot, chunks, n - 1, t));
                    } else {
                        let (tx, ty) = tile->Some_0;
                        assert(faces(board, bot, beside(tx, ty, d), t));
                    }
                }
            }
        }
    }
}

/// A bot picks a target that it borders, and picks none only where it borders nobody and no
/// wilderness.
pub proof fn lemma_bot_target(board: Board, bot: PlayerView)
    ensures
        ({
            let n = bot.owned_chunks.len() as int * 1024;
            match bot_target(board, bot) {
                Some(t) => borders(board, bot.id, bot.owned_chunks, n, t),
                None => forall|t: u32| !#[trigger] borders(board, bot.id, bot.owned_chunks, n, t),
            }
        }),
{
    let n = bot.owned_chunks.len() as int * 1024;
    lemma_border_seen(board, bot.id, bot.owned_chunks, n);
    let options = border_seen(board, bot.id, bot.owned_chunks, n).options();
    if options.len() > 0 {
        let seed = seed_of(bot.match_id, 0, bot.id as u64) as usize;
        let i = seed as int % options.len() as int;
        assert(0 <= i < options.len()) by (nonlinear_arith)
            requires
                i == seed as int % options.len() as int,
                options.len() > 0,
        ;
        assert(options.contains(options[i]));
    }
}

} // verus!
