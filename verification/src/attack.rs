//! An attack during one step of the simulation: how it opens, which tile it fights for next, what
//! a fight changes, and how the attack is stored.
//!
//! The outcomes of the fights are computed elsewhere. The rules ask for one with
//! [`AttackAction::Combat`] and take it back as a [`CombatOutcome`].

use std::collections::HashSet;

use vstd::multiset::Multiset;
use vstd::prelude::*;
use vstd::std_specs::hash::*;

use crate::chunks::{Board, ChunkCache};
use crate::front::{
    attack_border, capturable, enqueue_tile_neighbors, has_attacker_neighbor, holds_beside,
    is_capturable, prey_around, seed_attack_border, tiles_of,
};
use crate::grid::{tile_chunk_key, SIM_W};
use crate::players::{gain_tile, lose_tile, with_tile, without_tile};
use crate::quantity::{one, one_quantity, zero, zero_quantity, Quantity};
use crate::queue::{comes_first, stored_entries, ConquestQueue, ATTACK_HEAP_CAP};
use crate::rng::{rng_seed, seed_of};
use crate::tables::{Attack, AttackView, Player, PlayerView, TARGET_WILDERNESS};

verus! {

/// How an attack begins its step.
pub enum AttackOpening {
    /// The attacker gets this share of the attack's troops back, in percent, and the attack ends.
    Refund { attacker: Player, percent: u32 },
    /// The attack ends.
    Drop,
    /// The attack goes on. Its width, with some jitter, decides how many tiles it may take.
    Run { run: AttackRun, num_adjacent: u32 },
}

/// What an attack does next.
#[derive(Clone, Copy, PartialEq, Eq, Structural, Debug)]
pub enum AttackAction {
    /// It looks at its queue again.
    Again,
    /// It fights for a tile.
    Combat { tile: u32, terrain: u8 },
    /// Its step is over, and it is stored.
    Save,
    /// It has no troops left and ends.
    Delete,
    /// It has nothing left to conquer and ends; the attacker gets this share of its troops back,
    /// in percent.
    Refund { percent: u32 },
}

/// What a fight leaves: the troops of the attack and of the defender, which the fight may have
/// taken below zero.
#[derive(Clone, Copy, PartialEq, Eq, Structural, Debug)]
pub struct CombatOutcome {
    pub attack_troops: Quantity,
    pub target_troops: Quantity,
}

/// An attack under way in a step.
pub struct AttackRun {
    pub attack: Attack,
    pub attacker: Player,
    pub target: Option<Player>,
    pub tick: u64,
    pub queue: ConquestQueue,
    pub border_set: HashSet<u32>,
}

/// What a running attack holds.
#[verifier::ext_equal]
pub struct RunView {
    pub attack: AttackView,
    pub attacker: PlayerView,
    pub target: Option<PlayerView>,
    pub tick: u64,
    pub queue: Multiset<(i32, u32)>,
    pub border_set: Set<u32>,
}

/// The row of a player that may be missing.
pub open spec fn player_view(player: Option<Player>) -> Option<PlayerView> {
    match player {
        Some(p) => Some(p@),
        None => None,
    }
}

/// The share of an attack's troops that a retreat brings back, in percent: all of them from the
/// wilderness, three quarters from a player.
pub open spec fn refund_share(target: u32) -> u32 {
    if target == TARGET_WILDERNESS {
        100
    } else {
        75
    }
}

/// The entry of a queue that comes first.
pub open spec fn first_entry(queue: Multiset<(i32, u32)>) -> (i32, u32) {
    choose|entry: (i32, u32)|
        queue.contains(entry) && forall|other: (i32, u32)| #[trigger]
            queue.contains(other) ==> comes_first(entry, other)
}

/// Entries with the priority in front, as a queue holds them.
pub open spec fn queued(entries: Seq<(u32, i32)>) -> Multiset<(i32, u32)> {
    entries.map_values(|e: (u32, i32)| (e.1, e.0)).to_multiset()
}

/// May an attacker take this tile from the target: is it the target's, next to one of the
/// attacker's?
pub open spec fn takeable(board: Board, attacker: u32, target: u32, tile: u32) -> bool {
    let tx = tile as int % SIM_W as int;
    let ty = tile as int / SIM_W as int;
    &&& capturable(target, board.owner_at(tx, ty))
    &&& exists|d: int| 0 <= d < 4 && #[trigger] holds_beside(board, attacker, tx, ty, d)
}

/// May the attack still take this tile?
pub open spec fn still_open(run: RunView, board: Board, tile: u32) -> bool {
    takeable(board, run.attacker.id, run.attack.target, tile)
}

/// What an attack holds when its step opens. The wilderness has no row.
pub open spec fn opened_run(
    attack: AttackView,
    attacker: PlayerView,
    target: Option<PlayerView>,
    tick: u64,
) -> RunView {
    RunView {
        attack,
        attacker,
        target: if attack.target == TARGET_WILDERNESS {
            None
        } else {
            target
        },
        tick,
        queue: stored_entries(attack.to_conquer_tiles, attack.to_conquer_priorities).to_multiset(),
        border_set: attack.border.to_set(),
    }
}

/// An attack that has gathered its border anew.
pub open spec fn refreshed(run: RunView, border: Seq<(u32, i32)>) -> RunView {
    RunView {
        attack: AttackView {
            border: tiles_of(border),
            last_refresh_tick: run.tick,
            ..run.attack
        },
        queue: queued(border),
        border_set: tiles_of(border).to_set(),
        ..run
    }
}

/// The next move of an attack that has a budget left: what it holds then, and what it does.
pub open spec fn advanced(run: RunView, board: Board, budget: Quantity) -> (RunView, AttackAction) {
    let border = attack_border(
        board,
        run.attacker.id,
        run.attack.target,
        run.tick,
        run.attacker.owned_chunks,
    );
    if !zero_quantity().lt_spec(budget) {
        (run, AttackAction::Save)
    } else if run.attack.troops.lt_spec(one_quantity()) {
        (run, AttackAction::Delete)
    } else if run.queue.len() == 0 {
        if border.len() == 0 {
            (run, AttackAction::Refund { percent: refund_share(run.attack.target) })
        } else {
            (refreshed(run, border), AttackAction::Again)
        }
    } else {
        let entry = first_entry(run.queue);
        let rest = RunView { queue: run.queue.remove(entry), ..run };
        if still_open(run, board, entry.1) {
            let terrain = board.terrain_at(
                entry.1 as int % SIM_W as int,
                entry.1 as int / SIM_W as int,
            );
            (rest, AttackAction::Combat { tile: entry.1, terrain })
        } else {
            (rest, AttackAction::Again)
        }
    }
}

/// An attack that has put the first `n` of these tiles into its border and its queue, those that
/// were in the border before left out.
pub open spec fn widened(run: RunView, tiles: Seq<(u32, i32)>, n: int) -> RunView
    decreases n,
{
    if n <= 0 {
        run
    } else {
        let before = widened(run, tiles, n - 1);
        let (tile, priority) = tiles[n - 1];
        if before.border_set.contains(tile) {
            before
        } else {
            RunView {
                attack: AttackView {
                    border: if before.attack.border.len() < ATTACK_HEAP_CAP {
                        before.attack.border.push(tile)
                    } else {
                        before.attack.border
                    },
                    ..before.attack
                },
                queue: before.queue.insert((priority, tile)),
                border_set: before.border_set.insert(tile),
                ..before
            }
        }
    }
}

/// An attack after the troops of a fight have been booked.
pub open spec fn fought(run: RunView, outcome: CombatOutcome) -> RunView {
    RunView {
        attack: AttackView { troops: outcome.attack_troops.at_least_zero_spec(), ..run.attack },
        target: match run.target {
            Some(t) => Some(
                PlayerView { troops: outcome.target_troops.at_least_zero_spec(), ..t },
            ),
            None => None,
        },
        ..run
    }
}

/// An attack after a tile has been booked to the attacker, on the board as it is then.
pub open spec fn booked(run: RunView, board: Board, tx: int, ty: int) -> RunView {
    let chunk_id = tile_chunk_key(board.match_id, tx, ty);
    RunView {
        attacker: with_tile(run.attacker, chunk_id),
        target: match run.target {
            Some(t) => Some(without_tile(t, chunk_id, board.chunk_has_owner(chunk_id, t.id))),
            None => None,
        },
        ..run
    }
}

/// A border without a tile.
pub open spec fn border_without(border: Seq<u32>, tile: u32) -> Seq<u32> {
    border.filter(|t: u32| t != tile)
}

/// An attack that has taken a tile out of its border.
pub open spec fn narrowed(run: RunView, tile: u32) -> RunView {
    RunView {
        attack: AttackView { border: border_without(run.attack.border, tile), ..run.attack },
        border_set: run.border_set.remove(tile),
        ..run
    }
}

/// An attack after a tile has come to the attacker, on the board as it is then: the tile is booked
/// and leaves the border, and the front goes on around it.
pub open spec fn tile_taken(run: RunView, board: Board, tile: u32) -> RunView {
    let tx = tile as int % SIM_W as int;
    let ty = tile as int / SIM_W as int;
    let prey = prey_around(board, run.attacker.id, run.attack.target, tx, ty, run.tick, 4);
    widened(narrowed(booked(run, board, tx, ty), tile), prey, prey.len() as int)
}

/// What a fight for a tile leaves of the attack.
pub open spec fn resolved(
    run: RunView,
    board: Board,
    tile: u32,
    outcome: CombatOutcome,
) -> RunView {
    let tx = tile as int % SIM_W as int;
    let ty = tile as int / SIM_W as int;
    let after = fought(run, outcome);
    if board.has_tile(tx, ty) && capturable(run.attack.target, board.owner_at(tx, ty)) {
        tile_taken(after, board.claimed(tx, ty, run.attacker.id), tile)
    } else {
        after
    }
}

/// What an attack does after a fight: it ends if it is spent, and goes on if not.
pub open spec fn action_after(outcome: CombatOutcome) -> AttackAction {
    if spent(outcome.attack_troops.at_least_zero_spec()) {
        AttackAction::Delete
    } else {
        AttackAction::Again
    }
}

/// Is an attack stored that ends its step with this action?
pub open spec fn is_kept(last: AttackAction) -> bool {
    last == AttackAction::Save
}

/// The board after a fight for a tile: whoever held the tile, it is the attacker's.
pub open spec fn board_after(run: RunView, board: Board, tile: u32) -> Board {
    board.claimed(tile as int % SIM_W as int, tile as int / SIM_W as int, run.attacker.id)
}

/// The ids of the written rows after a fight for a tile.
pub open spec fn written_after(run: RunView, board: Board, dirty: Set<u64>, tile: u32) -> Set<u64> {
    board.written(dirty, tile as int % SIM_W as int, tile as int / SIM_W as int, run.attacker.id)
}

impl View for AttackRun {
    type V = RunView;

    open spec fn view(&self) -> RunView {
        RunView {
            attack: self.attack@,
            attacker: self.attacker@,
            target: player_view(self.target),
            tick: self.tick,
            queue: self.queue@,
            border_set: self.border_set@,
        }
    }
}

/// Two entries that each come first are the same entry.
proof fn lemma_first_entry(queue: Multiset<(i32, u32)>, entry: (i32, u32))
    requires
        queue.contains(entry),
        forall|other: (i32, u32)| #[trigger] queue.contains(other) ==> comes_first(entry, other),
    ensures
        first_entry(queue) == entry,
{
    let first = first_entry(queue);
    assert(queue.contains(first) && comes_first(first, entry) && comes_first(entry, first));
}

/// The share of an attack's troops that a retreat brings back, in percent.
pub fn refund_percent(target: u32) -> (r: u32)
    ensures
        r == refund_share(target),
{
    if target == TARGET_WILDERNESS {
        100
    } else {
        75
    }
}

/// Do the attack's troops come home in this step?
pub open spec fn comes_home(attack: Attack, attacker: Option<Player>) -> bool {
    attack.retreating && attacker is Some
}

/// Does the attack go on in this step?
pub open spec fn keeps_fighting(
    attack: Attack,
    attacker: Option<Player>,
    target: Option<Player>,
) -> bool {
    &&& !attack.retreating
    &&& attacker is Some
    &&& attacker->Some_0.alive
    &&& attacker->Some_0.spawn_tile is Some
    &&& attack.target != TARGET_WILDERNESS ==> target is Some && target->Some_0.alive
}

/// The length of the front that an attack has in a step: that of its border, and some chance.
pub open spec fn front_length(attack: AttackView, match_id: u64, tick: u64) -> int {
    attack.border.len() + seed_of(match_id, tick, attack.id) % 5
}

/// Has an attack too few troops to go on?
pub open spec fn spent(troops: Quantity) -> bool {
    troops.lt_spec(one_quantity())
}

/// Opens the step of an attack, from its row and those of its attacker and its target.
pub fn process_attack(
    attack: Attack,
    attacker: Option<Player>,
    target: Option<Player>,
    match_id: u64,
    current_tick: u64,
) -> (r: AttackOpening)
    requires
        attack.border@.len() <= u32::MAX - 4,
    ensures
        match r {
            AttackOpening::Refund { attacker: p, percent } => {
                &&& comes_home(attack, attacker)
                &&& attacker == Some(p)
                &&& percent == refund_share(attack.target)
            },
            AttackOpening::Drop => {
                &&& !comes_home(attack, attacker)
                &&& !keeps_fighting(attack, attacker, target)
            },
            AttackOpening::Run { run, num_adjacent } => {
                &&& keeps_fighting(attack, attacker, target)
                &&& run.wf()
                &&& run@ == opened_run(
                    attack@,
                    attacker->Some_0@,
                    player_view(target),
                    current_tick,
                )
                &&& num_adjacent == front_length(attack@, match_id, current_tick)
            },
        },
{
    if attack.retreating {
        return match attacker {
            Some(attacker) => AttackOpening::Refund {
                attacker,
                percent: refund_percent(attack.target),
            },
            None => AttackOpening::Drop,
        };
    }
    let attacker: Player = match attacker {
        Some(p) => {
            if p.alive && p.spawn_tile.is_some() {
                p
            } else {
                return AttackOpening::Drop;
            }
        },
        None => {
            return AttackOpening::Drop;
        },
    };
    let target: Option<Player> = if attack.target == TARGET_WILDERNESS {
        None
    } else {
        match target {
            Some(p) => {
                if p.alive {
                    Some(p)
                } else {
                    return AttackOpening::Drop;
                }
            },
            None => {
                return AttackOpening::Drop;
            },
        }
    };
    let queue: ConquestQueue = ConquestQueue::restore(
        &attack.to_conquer_tiles,
        &attack.to_conquer_priorities,
    );
    let jitter: u32 = (rng_seed(match_id, current_tick, attack.id) % 5) as u32;
    let num_adjacent: u32 = attack.border.len() as u32 + jitter;
    let border_set: HashSet<u32> = tile_set(&attack.border);
    AttackOpening::Run {
        run: AttackRun { attack, attacker, target, tick: current_tick, queue, border_set },
        num_adjacent,
    }
}

/// The set of the tiles of a list.
fn tile_set(tiles: &Vec<u32>) -> (r: HashSet<u32>)
    ensures
        r@ == tiles@.to_set(),
{
    broadcast use group_hash_axioms;

    let mut set: HashSet<u32> = HashSet::new();
    let mut i: usize = 0;
    assert(tiles@.take(0).to_set() =~= Set::empty());
    while i < tiles.len()
        invariant
            i <= tiles@.len(),
            set@ == tiles@.take(i as int).to_set(),
        decreases tiles@.len() - i,
    {
        broadcast use group_hash_axioms;

        let ghost before = tiles@.take(i as int);
        set.insert(tiles[i]);
        proof {
            assert(tiles@.take(i + 1) =~= before.push(tiles@[i as int]));
            assert forall|t: u32| before.push(tiles@[i as int]).contains(t) == (before.contains(t)
                || t == tiles@[i as int]) by {
                let after = before.push(tiles@[i as int]);
                assert(after[before.len() as int] == tiles@[i as int]);
                if before.contains(t) {
                    let j = choose|j: int| 0 <= j < before.len() && before[j] == t;
                    assert(after[j] == t);
                }
            }
            assert(set@ =~= tiles@.take(i + 1).to_set());
        }
        i += 1;
    }
    assert(tiles@.take(i as int) =~= tiles@);
    set
}

/// A list of tiles without a tile.
fn without_tiles(tiles: &Vec<u32>, tile: u32) -> (r: Vec<u32>)
    ensures
        r@ == border_without(tiles@, tile),
{
    let mut r: Vec<u32> = Vec::new();
    let mut i: usize = 0;
    proof {
        reveal(Seq::filter);
        assert(tiles@.take(0) =~= Seq::empty());
    }
    while i < tiles.len()
        invariant
            i <= tiles@.len(),
            r@ == border_without(tiles@.take(i as int), tile),
        decreases tiles@.len() - i,
    {
        proof {
            reveal(Seq::filter);
            assert(tiles@.take(i + 1).drop_last() =~= tiles@.take(i as int));
        }
        if tiles[i] != tile {
            r.push(tiles[i]);
        }
        i += 1;
    }
    assert(tiles@.take(i as int) =~= tiles@);
    r
}

impl AttackRun {
    /// The queue is in order.
    pub open spec fn wf(&self) -> bool {
        self.queue.wf()
    }

    /// Makes the next move of an attack. `budget` is what is left of the tiles that it may take.
    pub fn advance(&mut self, cache: &ChunkCache, budget: Quantity) -> (r: AttackAction)
        requires
            old(self).wf(),
            cache.wf(),
        ensures
            final(self).wf(),
            (final(self)@, r) == advanced(old(self)@, cache.board(), budget),
    {
        if !zero().less_than(budget) {
            return AttackAction::Save;
        }
        if self.attack.troops.less_than(one()) {
            return AttackAction::Delete;
        }
        let tile: u32 = match self.queue.pop() {
            Some((priority, tile)) => {
                proof {
                    lemma_first_entry(old(self)@.queue, (priority, tile));
                }
                tile
            },
            None => {
                return self.refresh(cache);
            },
        };
        let tx: u32 = tile % SIM_W;
        let ty: u32 = tile / SIM_W;
        if !is_capturable(self.attack.target, cache.get_owner(tx, ty)) {
            return AttackAction::Again;
        }
        if !has_attacker_neighbor(cache, self.attacker.id, tx, ty) {
            return AttackAction::Again;
        }
        AttackAction::Combat { tile, terrain: cache.terrain_at(tx, ty) }
    }

    /// Gathers the border anew, once the queue is empty.
    fn refresh(&mut self, cache: &ChunkCache) -> (r: AttackAction)
        requires
            old(self).wf(),
            old(self)@.queue.len() == 0,
            cache.wf(),
        ensures
            final(self).wf(),
            ({
                let border = attack_border(
                    cache.board(),
                    old(self)@.attacker.id,
                    old(self)@.attack.target,
                    old(self)@.tick,
                    old(self)@.attacker.owned_chunks,
                );
                if border.len() == 0 {
                    &&& final(self)@ == old(self)@
                    &&& r == AttackAction::Refund { percent: refund_share(old(self)@.attack.target) }
                } else {
                    &&& final(self)@ == refreshed(old(self)@, border)
                    &&& r == AttackAction::Again
                }
            }),
    {
        let (new_border, new_heap): (Vec<u32>, Vec<(u32, i32)>) = seed_attack_border(
            cache,
            &self.attacker,
            self.attack.target,
            self.attack.source_tile,
            self.tick,
        );
        if new_heap.len() == 0 {
            return AttackAction::Refund { percent: refund_percent(self.attack.target) };
        }
        self.border_set = tile_set(&new_border);
        self.attack.border = new_border;
        let ghost entries = new_heap@.map_values(|e: (u32, i32)| (e.1, e.0));
        let mut queue: ConquestQueue = ConquestQueue::new();
        let mut i: usize = 0;
        proof {
            broadcast use vstd::seq_lib::group_to_multiset_ensures;

            assert(entries.take(0).to_multiset() =~= Multiset::empty());
        }
        while i < new_heap.len()
            invariant
                i <= new_heap@.len(),
                entries == new_heap@.map_values(|e: (u32, i32)| (e.1, e.0)),
                queue.wf(),
                queue@ == entries.take(i as int).to_multiset(),
            decreases new_heap@.len() - i,
        {
            let (tile, priority): (u32, i32) = new_heap[i];
            queue.push(priority, tile);
            proof {
                vstd::seq_lib::to_multiset_build(entries.take(i as int), entries[i as int]);
                assert(entries.take(i + 1) =~= entries.take(i as int).push(entries[i as int]));
            }
            i += 1;
        }
        assert(entries.take(i as int) =~= entries);
        self.queue = queue;
        self.attack.last_refresh_tick = self.tick;
        AttackAction::Again
    }

    /// Books the outcome of the fight for a tile: the troops, and the tile itself if it still was
    /// the target's.
    pub fn resolve(&mut self, cache: &mut ChunkCache, tile: u32, outcome: CombatOutcome) -> (r:
        AttackAction)
        requires
            old(self).wf(),
            old(cache).wf(),
            old(self).attacker.tiles < u32::MAX,
        ensures
            final(self).wf(),
            final(cache).wf(),
            final(self)@ == resolved(old(self)@, old(cache).board(), tile, outcome),
            final(cache).board() == board_after(old(self)@, old(cache).board(), tile),
            final(cache).dirty() == written_after(
                old(self)@,
                old(cache).board(),
                old(cache).dirty(),
                tile,
            ),
            r == action_after(outcome),
    {
        let tx: u32 = tile % SIM_W;
        let ty: u32 = tile / SIM_W;
        let troops: Quantity = outcome.attack_troops.at_least_zero();
        self.attack.troops = troops;
        if let Some(t) = &mut self.target {
            t.troops = outcome.target_troops.at_least_zero();
        }
        let ghost after = self@;
        assert(after == fought(old(self)@, outcome));
        if let Some((chunk_id, prev_owner)) = cache.set_owner(tx, ty, self.attacker.id) {
            if is_capturable(self.attack.target, prev_owner) {
                gain_tile(&mut self.attacker, chunk_id);
                if let Some(t) = &mut self.target {
                    let holds_others: bool = cache.chunk_has_owner(chunk_id, t.id);
                    lose_tile(t, chunk_id, holds_others);
                }
                self.narrow(tile);
                let pushed: Vec<(u32, i32)> = enqueue_tile_neighbors(
                    cache,
                    self.attacker.id,
                    self.attack.target,
                    tx,
                    ty,
                    self.tick,
                );
                self.widen(&pushed);
            }
        }
        if troops.less_than(one()) {
            AttackAction::Delete
        } else {
            AttackAction::Again
        }
    }

    /// Takes a tile out of the border.
    fn narrow(&mut self, tile: u32)
        requires
            old(self).wf(),
        ensures
            final(self).wf(),
            final(self)@ == narrowed(old(self)@, tile),
    {
        broadcast use group_hash_axioms;

        self.border_set.remove(&tile);
        self.attack.border = without_tiles(&self.attack.border, tile);
    }

    /// Puts tiles into the border and the queue, unless they were in the border before.
    fn widen(&mut self, pushed: &Vec<(u32, i32)>)
        requires
            old(self).wf(),
        ensures
            final(self).wf(),
            final(self)@ == widened(old(self)@, pushed@, pushed@.len() as int),
    {
        broadcast use group_hash_axioms;

        let mut i: usize = 0;
        while i < pushed.len()
            invariant
                i <= pushed@.len(),
                self.wf(),
                self@ == widened(old(self)@, pushed@, i as int),
            decreases pushed@.len() - i,
        {
            broadcast use group_hash_axioms;

            let ghost before = self@;
            let (tile, priority): (u32, i32) = pushed[i];
            if self.border_set.insert(tile) {
                if self.attack.border.len() < ATTACK_HEAP_CAP {
                    self.attack.border.push(tile);
                }
                self.queue.push(priority, tile);
            } else {
                assert(self@.border_set =~= before.border_set);
            }
            i += 1;
        }
    }

    /// Ends the step of an attack with its last action: the row to store, if the attack goes on,
    /// and the rows of its attacker and its target, which are stored in any case.
    pub fn finish(self, last: AttackAction) -> (r: (Option<Attack>, Player, Option<Player>))
        ensures
            r.1@ == self@.attacker,
            player_view(r.2) == self@.target,
            match r.0 {
                Some(attack) => is_kept(last) && stores_run(attack@, self@),
                None => !is_kept(last),
            },
    {
        match last {
            AttackAction::Save => {
                let (tiles, priorities): (Vec<u32>, Vec<i32>) = self.queue.store();
                let mut attack: Attack = self.attack;
                attack.to_conquer_tiles = tiles;
                attack.to_conquer_priorities = priorities;
                (Some(attack), self.attacker, self.target)
            },
            _ => (None, self.attacker, self.target),
        }
    }
}

/// Does this row store a running attack? All of its queue is stored, or as much as an attack
/// stores; which entries those are, and in which order, is open.
pub open spec fn stores_run(row: AttackView, run: RunView) -> bool {
    let stored = stored_entries(row.to_conquer_tiles, row.to_conquer_priorities).to_multiset();
    &&& row == (AttackView {
        to_conquer_tiles: row.to_conquer_tiles,
        to_conquer_priorities: row.to_conquer_priorities,
        ..run.attack
    })
    &&& row.to_conquer_tiles.len() == row.to_conquer_priorities.len()
    &&& row.to_conquer_tiles.len() == if run.queue.len() <= ATTACK_HEAP_CAP {
        run.queue.len()
    } else {
        ATTACK_HEAP_CAP as nat
    }
    &&& stored.subset_of(run.queue)
    &&& run.queue.len() <= ATTACK_HEAP_CAP ==> stored == run.queue
}

} // verus!
