//! The front of an attack: which tiles it can take, in which order, and where they lie.

use std::collections::HashSet;

use vstd::prelude::*;
use vstd::std_specs::hash::*;

use crate::chunks::{Board, ChunkCache};
use crate::grid::{
    cell_of, chunk_index, chunk_key, chunk_tile, lemma_chunk_in_range, lemma_chunk_key,
    lemma_chunk_tile, lemma_tile_cell, lemma_tile_index, local_chunk_idx, on_map, tile_chunk_key,
    CHUNKS_X, CHUNK_SIZE, CHUNK_TILES, SIM_H, SIM_TILES, SIM_W,
};
use crate::queue::ATTACK_HEAP_CAP;
use crate::rng::{rng_seed, seed_of};
use crate::rounding::{lemma_rounded_monotone, lemma_rounded_near, round_whole, rounded};
use crate::tables::{Player, TARGET_WILDERNESS, UNCLAIMED};

verus! {

/// The neighbour of a point to the right, to the left, below and above.
pub open spec fn beside(tx: int, ty: int, d: int) -> (int, int) {
    if d == 0 {
        (tx + 1, ty)
    } else if d == 1 {
        (tx - 1, ty)
    } else if d == 2 {
        (tx, ty + 1)
    } else {
        (tx, ty - 1)
    }
}

/// The row-major index of a tile.
pub open spec fn tile_at(tx: int, ty: int) -> u32 {
    (ty * SIM_W + tx) as u32
}

/// Can an attack on this target take a tile from this owner? Attacks on the wilderness take
/// unclaimed land, attacks on a player take that player's tiles.
pub open spec fn capturable(target: u32, owner: Option<u32>) -> bool {
    match owner {
        None => target == TARGET_WILDERNESS,
        Some(o) => target != TARGET_WILDERNESS && o == target,
    }
}

/// Does a player hold this neighbour of a tile?
pub open spec fn holds_beside(board: Board, player: u32, tx: int, ty: int, d: int) -> bool {
    board.owner_at(beside(tx, ty, d).0, beside(tx, ty, d).1) == Some(player)
}

/// How many of the first `n` neighbours of a tile a player holds.
pub open spec fn held_neighbors(board: Board, player: u32, tx: int, ty: int, n: int) -> int
    decreases n,
{
    if n <= 0 {
        0
    } else {
        held_neighbors(board, player, tx, ty, n - 1) + if holds_beside(
            board,
            player,
            tx,
            ty,
            n - 1,
        ) {
            1int
        } else {
            0int
        }
    }
}

/// What the terrain adds to a tile's weight, in quarters: mountains more than highland, highland
/// more than plains.
pub open spec fn terrain_quarters(terrain: u8) -> int {
    if terrain == 0 {
        0
    } else if terrain == 1 {
        2
    } else if terrain == 2 {
        3
    } else {
        4
    }
}

/// The weight of a tile, in quarters: from a jitter between 10 and 16 that is fixed for the tile
/// and the tick, less for every neighbour that the attacker holds, more for hard terrain.
pub open spec fn weight_quarters(jitter: int, held: int, terrain: u8) -> int {
    jitter * (4 - 2 * held + terrain_quarters(terrain))
}

/// The jitter of a tile at a tick.
pub open spec fn tile_jitter(tx: u32, ty: u32, tick: u64) -> int {
    seed_of(tx as u64, ty as u64, tick) as int % 7 + 10
}

/// A number of quarters after rounding to single precision, cut to a whole number towards zero.
pub open spec fn whole_part(quarters: int) -> int {
    if quarters >= 0 {
        rounded(quarters as nat) as int / 4
    } else {
        -(rounded((-quarters) as nat) as int / 4)
    }
}

/// The priority that a weight gives at a tick: their sum in single precision, cut to a whole
/// number, and at most the largest priority there is.
pub open spec fn priority_of(quarters: int, tick: u64) -> i32 {
    let sum = whole_part(4 * rounded(tick as nat) + quarters);
    if sum > i32::MAX {
        i32::MAX
    } else {
        sum as i32
    }
}

/// The priority of a tile for an attacker. Lower values are conquered first.
pub open spec fn tile_priority(board: Board, attacker: u32, tx: int, ty: int, tick: u64) -> i32 {
    priority_of(
        weight_quarters(
            tile_jitter(tx as u32, ty as u32, tick),
            held_neighbors(board, attacker, tx, ty, 4),
            board.terrain_at(tx, ty),
        ),
        tick,
    )
}

/// The neighbour of a tile, if an attack on this target can take it.
pub open spec fn prey_beside(board: Board, target: u32, tx: int, ty: int, d: int) -> Option<
    (int, int),
> {
    let (nx, ny) = beside(tx, ty, d);
    if board.is_land(nx, ny) && capturable(target, board.owner_at(nx, ny)) {
        Some((nx, ny))
    } else {
        None
    }
}

/// Those of the first `n` neighbours of a tile that an attack can take, with their priorities.
pub open spec fn prey_around(
    board: Board,
    attacker: u32,
    target: u32,
    tx: int,
    ty: int,
    tick: u64,
    n: int,
) -> Seq<(u32, i32)>
    decreases n,
{
    if n <= 0 {
        Seq::empty()
    } else {
        let before = prey_around(board, attacker, target, tx, ty, tick, n - 1);
        match prey_beside(board, target, tx, ty, n - 1) {
            Some((nx, ny)) => before.push(
                (tile_at(nx, ny), tile_priority(board, attacker, nx, ny, tick)),
            ),
            None => before,
        }
    }
}

/// The tile of a chunk's cell, if it is on the map and carries the player's byte. A cell that the
/// row lacks counts as unclaimed.
pub open spec fn cell_tile(board: Board, player: u32, chunk_id: u64, cell: int) -> Option<
    (int, int),
> {
    let (tx, ty) = chunk_tile(chunk_id as int % 0x1_0000_0000, cell);
    if board.rows.contains_key(chunk_id) && player as u8 == byte_at(
        board.rows[chunk_id].owners,
        cell,
    ) && on_map(tx, ty) {
        Some((tx, ty))
    } else {
        None
    }
}

/// The owner byte of a cell, unclaimed where there is none.
pub open spec fn byte_at(owners: Seq<u8>, cell: int) -> u8 {
    if cell < owners.len() {
        owners[cell]
    } else {
        UNCLAIMED
    }
}

/// Is the tile among the entries?
pub open spec fn lists_tile(entries: Seq<(u32, i32)>, tile: u32) -> bool {
    exists|i: int| 0 <= i < entries.len() && (#[trigger] entries[i]).0 == tile
}

/// What an attack can take at a place of its scan: chunk by chunk, cell by cell, neighbour by
/// neighbour.
pub open spec fn scan_prey(board: Board, attacker: u32, target: u32, chunks: Seq<u64>, k: int) -> Option<
    (int, int),
> {
    match cell_tile(board, attacker, chunks[k / 4096], k / 4 % 1024) {
        Some((tx, ty)) => prey_beside(board, target, tx, ty, k % 4),
        None => None,
    }
}

/// The border found at the first `n` places of the scan: each tile once, and no more tiles than
/// an attack stores.
pub open spec fn border_found(
    board: Board,
    attacker: u32,
    target: u32,
    tick: u64,
    chunks: Seq<u64>,
    n: int,
) -> Seq<(u32, i32)>
    decreases n,
{
    if n <= 0 {
        Seq::empty()
    } else {
        with_prey(
            border_found(board, attacker, target, tick, chunks, n - 1),
            board,
            attacker,
            tick,
            scan_prey(board, attacker, target, chunks, n - 1),
        )
    }
}

/// A border with one more tile, unless the tile is in it or the border is full.
pub open spec fn with_prey(
    border: Seq<(u32, i32)>,
    board: Board,
    attacker: u32,
    tick: u64,
    prey: Option<(int, int)>,
) -> Seq<(u32, i32)> {
    match prey {
        Some((nx, ny)) if border.len() < ATTACK_HEAP_CAP && !lists_tile(border, tile_at(nx, ny)) =>
        border.push((tile_at(nx, ny), tile_priority(board, attacker, nx, ny, tick))),
        _ => border,
    }
}

/// The border of an attacker towards a target.
pub open spec fn attack_border(
    board: Board,
    attacker: u32,
    target: u32,
    tick: u64,
    chunks: Seq<u64>,
) -> Seq<(u32, i32)> {
    border_found(board, attacker, target, tick, chunks, chunks.len() as int * 4096)
}

/// The tiles of entries.
pub open spec fn tiles_of(entries: Seq<(u32, i32)>) -> Seq<u32> {
    entries.map_values(|e: (u32, i32)| e.0)
}

/// Can an attack on this target take a tile from this owner?
pub fn is_capturable(target_id: u32, current_owner: Option<u32>) -> (r: bool)
    ensures
        r == capturable(target_id, current_owner),
{
    match current_owner {
        None => target_id == TARGET_WILDERNESS,
        Some(o) => target_id != TARGET_WILDERNESS && o == target_id,
    }
}

/// A neighbour of a tile, if it is on the map.
pub(crate) fn neighbor(tx: u32, ty: u32, d: u32) -> (r: Option<(u32, u32)>)
    requires
        d < 4,
    ensures
        ({
            let (nx, ny) = beside(tx as int, ty as int, d as int);
            r == if on_map(nx, ny) {
                Some((nx as u32, ny as u32))
            } else {
                None
            }
        }),
{
    let mut nx: i64 = tx as i64;
    let mut ny: i64 = ty as i64;
    if d == 0 {
        nx += 1;
    } else if d == 1 {
        nx -= 1;
    } else if d == 2 {
        ny += 1;
    } else {
        ny -= 1;
    }
    if nx < 0 || nx >= SIM_W as i64 || ny < 0 || ny >= SIM_H as i64 {
        None
    } else {
        Some((nx as u32, ny as u32))
    }
}

/// Does the attacker hold a neighbour of the tile?
pub fn has_attacker_neighbor(cache: &ChunkCache, attacker_id: u32, tx: u32, ty: u32) -> (r: bool)
    requires
        cache.wf(),
    ensures
        r == (exists|d: int|
            0 <= d < 4 && #[trigger] holds_beside(
                cache.board(),
                attacker_id,
                tx as int,
                ty as int,
                d,
            )),
{
    let mut d: u32 = 0;
    while d < 4
        invariant
            d <= 4,
            cache.wf(),
            forall|e: int|
                0 <= e < d ==> !#[trigger] holds_beside(
                    cache.board(),
                    attacker_id,
                    tx as int,
                    ty as int,
                    e,
                ),
        decreases 4 - d,
    {
        if let Some((nx, ny)) = neighbor(tx, ty, d) {
            if let Some(owner) = cache.get_owner(nx, ny) {
                if owner == attacker_id {
                    assert(holds_beside(
                        cache.board(),
                        attacker_id,
                        tx as int,
                        ty as int,
                        d as int,
                    ));
                    return true;
                }
            }
        }
        d += 1;
    }
    false
}

/// No tile has more than `n` neighbours among its first `n`.
proof fn lemma_held_neighbors(board: Board, player: u32, tx: int, ty: int, n: int)
    requires
        0 <= n,
    ensures
        0 <= held_neighbors(board, player, tx, ty, n) <= n,
    decreases n,
{
    if n > 0 {
        lemma_held_neighbors(board, player, tx, ty, n - 1);
    }
}

/// The priority of a weight at a tick, in single precision.
fn priority(quarters: i64, tick: u64) -> (r: i32)
    requires
        -1000 <= quarters <= 1000,
    ensures
        r == priority_of(quarters as int, tick),
{
    let base: u128 = round_whole(tick as u128);
    proof {
        lemma_rounded_near(tick as nat);
    }
    let sum: i128 = 4 * (base as i128) + quarters as i128;
    if sum >= 0 {
        let held: u128 = round_whole(sum as u128);
        let whole: u128 = held / 4;
        if whole > 0x7FFF_FFFF {
            0x7FFF_FFFF
        } else {
            whole as i32
        }
    } else {
        let held: u128 = round_whole((-sum) as u128);
        proof {
            lemma_rounded_near((-sum) as nat);
        }
        let whole: i32 = (held / 4) as i32;
        -whole
    }
}

/// The priority of a tile for an attacker. Lower values are conquered first.
pub fn compute_tile_priority(
    cache: &ChunkCache,
    attacker_id: u32,
    tx: u32,
    ty: u32,
    current_tick: u64,
) -> (r: i32)
    requires
        cache.wf(),
    ensures
        r == tile_priority(cache.board(), attacker_id, tx as int, ty as int, current_tick),
{
    let terrain: u8 = cache.terrain_at(tx, ty);
    let extra: i64 = if terrain == 0 {
        0
    } else if terrain == 1 {
        2
    } else if terrain == 2 {
        3
    } else {
        4
    };
    let mut count: i64 = 0;
    let mut d: u32 = 0;
    while d < 4
        invariant
            d <= 4,
            cache.wf(),
            0 <= count <= d,
            count == held_neighbors(
                cache.board(),
                attacker_id,
                tx as int,
                ty as int,
                d as int,
            ),
        decreases 4 - d,
    {
        if let Some((nx, ny)) = neighbor(tx, ty, d) {
            if let Some(owner) = cache.get_owner(nx, ny) {
                if owner == attacker_id {
                    count += 1;
                }
            }
        }
        d += 1;
    }
    let seed: u64 = rng_seed(tx as u64, ty as u64, current_tick);
    let base: i64 = (seed % 7) as i64 + 10;
    let factor: i64 = 4 - 2 * count + extra;
    assert(-100 <= base * factor <= 1000) by (nonlinear_arith)
        requires
            10 <= base <= 16,
            -4 <= factor <= 8,
    ;
    priority(base * factor, current_tick)
}

/// Those neighbours of a tile that an attack can take, with their priorities.
pub fn enqueue_tile_neighbors(
    cache: &ChunkCache,
    attacker_id: u32,
    target_id: u32,
    tx: u32,
    ty: u32,
    current_tick: u64,
) -> (r: Vec<(u32, i32)>)
    requires
        cache.wf(),
    ensures
        r@ == prey_around(
            cache.board(),
            attacker_id,
            target_id,
            tx as int,
            ty as int,
            current_tick,
            4,
        ),
{
    let mut out: Vec<(u32, i32)> = Vec::new();
    let mut d: u32 = 0;
    while d < 4
        invariant
            d <= 4,
            cache.wf(),
            out@ == prey_around(
                cache.board(),
                attacker_id,
                target_id,
                tx as int,
                ty as int,
                current_tick,
                d as int,
            ),
        decreases 4 - d,
    {
        if let Some((nx, ny)) = neighbor(tx, ty, d) {
            if cache.is_land(nx, ny) && is_capturable(target_id, cache.get_owner(nx, ny)) {
                let prio: i32 = compute_tile_priority(cache, attacker_id, nx, ny, current_tick);
                out.push((ny * SIM_W + nx, prio));
            }
        }
        d += 1;
    }
    out
}

/// Places of the scan at which there is nothing to take change nothing.
proof fn lemma_scan_skips(
    board: Board,
    attacker: u32,
    target: u32,
    tick: u64,
    chunks: Seq<u64>,
    k: int,
    n: int,
)
    requires
        0 <= k <= n,
        forall|j: int|
            k <= j < n ==> (#[trigger] scan_prey(board, attacker, target, chunks, j)) is None,
    ensures
        border_found(board, attacker, target, tick, chunks, n) == border_found(
            board,
            attacker,
            target,
            tick,
            chunks,
            k,
        ),
    decreases n - k,
{
    if k < n {
        lemma_scan_skips(board, attacker, target, tick, chunks, k, n - 1);
        assert(scan_prey(board, attacker, target, chunks, n - 1) is None);
    }
}

/// A full border stays as it is.
proof fn lemma_scan_full(
    board: Board,
    attacker: u32,
    target: u32,
    tick: u64,
    chunks: Seq<u64>,
    k: int,
    n: int,
)
    requires
        0 <= k <= n,
        border_found(board, attacker, target, tick, chunks, k).len() >= ATTACK_HEAP_CAP,
    ensures
        border_found(board, attacker, target, tick, chunks, n) == border_found(
            board,
            attacker,
            target,
            tick,
            chunks,
            k,
        ),
    decreases n - k,
{
    if k < n {
        lemma_scan_full(board, attacker, target, tick, chunks, k, n - 1);
    }
}

/// A border that is being gathered.
struct Gathering {
    set: HashSet<u32>,
    border: Vec<u32>,
    heap: Vec<(u32, i32)>,
}

impl Gathering {
    /// The set and the list hold the tiles of the entries.
    spec fn wf(&self) -> bool {
        &&& self.border@ == tiles_of(self.heap@)
        &&& forall|tile: u32| #[trigger]
            self.set@.contains(tile) <==> lists_tile(self.heap@, tile)
    }

    /// An empty border.
    fn new() -> (r: Gathering)
        ensures
            r.wf(),
            r.heap@ == Seq::<(u32, i32)>::empty(),
    {
        broadcast use group_hash_axioms;

        let r = Gathering { set: HashSet::new(), border: Vec::new(), heap: Vec::new() };
        assert(r.border@ =~= tiles_of(r.heap@));
        r
    }

    /// Adds a neighbour of a tile, if an attack on the target can take it.
    fn probe(
        &mut self,
        cache: &ChunkCache,
        attacker_id: u32,
        target_id: u32,
        tx: u32,
        ty: u32,
        d: u32,
        current_tick: u64,
    )
        requires
            cache.wf(),
            old(self).wf(),
            old(self).heap@.len() < ATTACK_HEAP_CAP,
            d < 4,
        ensures
            final(self).wf(),
            final(self).heap@ == with_prey(
                old(self).heap@,
                cache.board(),
                attacker_id,
                current_tick,
                prey_beside(cache.board(), target_id, tx as int, ty as int, d as int),
            ),
    {
        broadcast use group_hash_axioms;

        if let Some((nx, ny)) = neighbor(tx, ty, d) {
            if cache.is_land(nx, ny) && is_capturable(target_id, cache.get_owner(nx, ny)) {
                let key: u32 = ny * SIM_W + nx;
                if self.set.insert(key) {
                    let prio: i32 = compute_tile_priority(
                        cache,
                        attacker_id,
                        nx,
                        ny,
                        current_tick,
                    );
                    let ghost before = self.heap@;
                    self.heap.push((key, prio));
                    self.border.push(key);
                    proof {
                        lemma_tiles_push(before, (key, prio));
                        assert forall|tile: u32| #[trigger]
                            self.set@.contains(tile) <==> lists_tile(self.heap@, tile) by {
                            lemma_lists_push(before, (key, prio), tile);
                        }
                    }
                } else {
                    assert(self.set@ =~= old(self).set@);
                }
            }
        }
    }
}

/// One more entry lists one more tile.
proof fn lemma_lists_push(entries: Seq<(u32, i32)>, entry: (u32, i32), tile: u32)
    ensures
        lists_tile(entries.push(entry), tile) <==> lists_tile(entries, tile) || tile == entry.0,
{
    let after = entries.push(entry);
    assert(after[entries.len() as int] == entry);
    if lists_tile(entries, tile) {
        let i = choose|i: int| 0 <= i < entries.len() && (#[trigger] entries[i]).0 == tile;
        assert(after[i] == entries[i]);
    }
    if lists_tile(after, tile) {
        let i = choose|i: int| 0 <= i < after.len() && (#[trigger] after[i]).0 == tile;
        if i < entries.len() {
            assert(after[i] == entries[i]);
        }
    }
}

/// One more entry has one more tile.
proof fn lemma_tiles_push(entries: Seq<(u32, i32)>, entry: (u32, i32))
    ensures
        tiles_of(entries.push(entry)) == tiles_of(entries).push(entry.0),
{
    assert(tiles_of(entries.push(entry)) =~= tiles_of(entries).push(entry.0));
}

/// Gathers the tiles next to the attacker's that an attack on the target can take: the border,
/// and the same tiles with their priorities.
pub fn seed_attack_border(
    cache: &ChunkCache,
    attacker: &Player,
    target_id: u32,
    _source_tile: Option<u32>,
    current_tick: u64,
) -> (r: (Vec<u32>, Vec<(u32, i32)>))
    requires
        cache.wf(),
    ensures
        r.1@ == attack_border(
            cache.board(),
            attacker.id,
            target_id,
            current_tick,
            attacker.owned_chunks@,
        ),
        r.0@ == tiles_of(r.1@),
{
    let mut found: Gathering = Gathering::new();
    let attacker_byte: u8 = attacker.id as u8;
    let chunk_ids: &Vec<u64> = &attacker.owned_chunks;
    let ghost board = cache.board();
    let ghost chunks = chunk_ids@;
    let ghost total = chunks.len() as int * 4096;
    let mut c: usize = 0;
    while c < chunk_ids.len()
        invariant
            cache.wf(),
            found.wf(),
            board == cache.board(),
            chunks == chunk_ids@,
            chunks == attacker.owned_chunks@,
            attacker_byte == attacker.id as u8,
            total == chunks.len() * 4096,
            c <= chunks.len(),
            found.heap@ == border_found(
                board,
                attacker.id,
                target_id,
                current_tick,
                chunks,
                c * 4096,
            ),
            found.heap@.len() < ATTACK_HEAP_CAP,
        decreases chunks.len() - c,
    {
        let chunk_id: u64 = chunk_ids[c];
        let ghost start = c * 4096;
        if let Some(owners) = cache.clone_owners(chunk_id) {
            let local_idx: u32 = local_chunk_idx(chunk_id);
            let cx: u32 = local_idx % CHUNKS_X;
            let cy: u32 = local_idx / CHUNKS_X;
            let mut cell: u32 = 0;
            while cell < CHUNK_TILES
                invariant
                    cache.wf(),
                    found.wf(),
                    board == cache.board(),
                    chunks == chunk_ids@,
                    chunks == attacker.owned_chunks@,
                    attacker_byte == attacker.id as u8,
                    total == chunks.len() * 4096,
                    c < chunks.len(),
                    chunk_id == chunks[c as int],
                    start == c * 4096,
                    board.rows.contains_key(chunk_id),
                    owners@ == board.rows[chunk_id].owners,
                    local_idx == chunk_id as int % 0x1_0000_0000,
                    cx == local_idx as int % CHUNKS_X as int,
                    cy == local_idx as int / CHUNKS_X as int,
                    cell <= CHUNK_TILES,
                    found.heap@ == border_found(
                        board,
                        attacker.id,
                        target_id,
                        current_tick,
                        chunks,
                        start + cell * 4,
                    ),
                    found.heap@.len() < ATTACK_HEAP_CAP,
                decreases CHUNK_TILES - cell,
            {
                let idx: usize = cell as usize;
                let byte: u8 = if idx < owners.len() { owners[idx] } else { UNCLAIMED };
                let tx: u32 = cx * CHUNK_SIZE + cell % CHUNK_SIZE;
                let ty: u32 = cy * CHUNK_SIZE + cell / CHUNK_SIZE;
                let ghost first = start + cell * 4;
                if byte != attacker_byte || tx >= SIM_W || ty >= SIM_H {
                    proof {
                        assert(cell_tile(board, attacker.id, chunk_id, cell as int) is None);
                        assert forall|j: int| first <= j < first + 4 implies (
                        #[trigger] scan_prey(board, attacker.id, target_id, chunks, j)) is None by {
                            lemma_scan_place(c as int, cell as int, j - first);
                        }
                        lemma_scan_skips(
                            board,
                            attacker.id,
                            target_id,
                            current_tick,
                            chunks,
                            first,
                            first + 4,
                        );
                    }
                } else {
                    assert(cell_tile(board, attacker.id, chunk_id, cell as int) == Some(
                        (tx as int, ty as int),
                    ));
                    let mut d: u32 = 0;
                    while d < 4
                        invariant
                            cache.wf(),
                            found.wf(),
                            board == cache.board(),
                            chunks == attacker.owned_chunks@,
                            total == chunks.len() * 4096,
                            c < chunks.len(),
                            chunk_id == chunks[c as int],
                            start == c * 4096,
                            first == start + cell * 4,
                            cell < CHUNK_TILES,
                            cell_tile(board, attacker.id, chunk_id, cell as int) == Some(
                                (tx as int, ty as int),
                            ),
                            d <= 4,
                            found.heap@ == border_found(
                                board,
                                attacker.id,
                                target_id,
                                current_tick,
                                chunks,
                                first + d,
                            ),
                            found.heap@.len() < ATTACK_HEAP_CAP,
                        decreases 4 - d,
                    {
                        proof {
                            lemma_scan_place(c as int, cell as int, d as int);
                            assert(scan_prey(board, attacker.id, target_id, chunks, first + d)
                                == prey_beside(board, target_id, tx as int, ty as int, d as int));
                        }
                        found.probe(cache, attacker.id, target_id, tx, ty, d, current_tick);
                        if found.heap.len() >= ATTACK_HEAP_CAP {
                            proof {
                                lemma_scan_full(
                                    board,
                                    attacker.id,
                                    target_id,
                                    current_tick,
                                    chunks,
                                    first + d + 1,
                                    total,
                                );
                            }
                            return (found.border, found.heap);
                        }
                        d += 1;
                    }
                }
                cell += 1;
            }
        } else {
            proof {
                assert forall|j: int| start <= j < start + 4096 implies (
                #[trigger] scan_prey(board, attacker.id, target_id, chunks, j)) is None by {
                    assert(j / 4096 == c);
                }
                lemma_scan_skips(
                    board,
                    attacker.id,
                    target_id,
                    current_tick,
                    chunks,
                    start,
                    start + 4096,
                );
            }
        }
        c += 1;
    }
    (found.border, found.heap)
}

/// More quarters make no lower priority.
proof fn lemma_priority_monotone(a: int, b: int, tick: u64)
    requires
        a <= b,
        -1000 <= a,
        b <= 1000,
    ensures
        priority_of(a, tick) <= priority_of(b, tick),
{
    let base = 4 * rounded(tick as nat);
    let x = base + a;
    let y = base + b;
    if x >= 0 {
        lemma_rounded_monotone(x as nat, y as nat);
        lemma_rounded_near(x as nat);
    } else {
        lemma_rounded_near((-x) as nat);
        if y < 0 {
            lemma_rounded_monotone((-y) as nat, (-x) as nat);
        }
    }
}

/// A tile with more neighbours in the attacker's hands comes no later than it would with fewer.
pub proof fn lemma_held_neighbors_first(
    fewer: Board,
    more: Board,
    attacker: u32,
    tx: int,
    ty: int,
    tick: u64,
)
    requires
        fewer.terrain_at(tx, ty) == more.terrain_at(tx, ty),
        held_neighbors(fewer, attacker, tx, ty, 4) <= held_neighbors(more, attacker, tx, ty, 4),
    ensures
        tile_priority(more, attacker, tx, ty, tick) <= tile_priority(
            fewer,
            attacker,
            tx,
            ty,
            tick,
        ),
{
    let jitter = tile_jitter(tx as u32, ty as u32, tick);
    let a = held_neighbors(more, attacker, tx, ty, 4);
    let b = held_neighbors(fewer, attacker, tx, ty, 4);
    let terrain = more.terrain_at(tx, ty);
    let t = terrain_quarters(terrain);
    lemma_held_neighbors(more, attacker, tx, ty, 4);
    lemma_held_neighbors(fewer, attacker, tx, ty, 4);
    lemma_weights(jitter, 4 - 2 * a + t, 4 - 2 * b + t);
    lemma_priority_monotone(
        weight_quarters(jitter, a, terrain),
        weight_quarters(jitter, b, terrain),
        tick,
    );
}

/// A tile of harder terrain comes no earlier than it would with easier terrain: plains first, then
/// highland, then mountains.
pub proof fn lemma_hard_terrain_last(
    easier: Board,
    harder: Board,
    attacker: u32,
    tx: int,
    ty: int,
    tick: u64,
)
    requires
        easier.terrain_at(tx, ty) <= harder.terrain_at(tx, ty),
        held_neighbors(easier, attacker, tx, ty, 4) == held_neighbors(harder, attacker, tx, ty, 4),
    ensures
        tile_priority(easier, attacker, tx, ty, tick) <= tile_priority(
            harder,
            attacker,
            tx,
            ty,
            tick,
        ),
{
    let jitter = tile_jitter(tx as u32, ty as u32, tick);
    let held = held_neighbors(easier, attacker, tx, ty, 4);
    let t = easier.terrain_at(tx, ty);
    let u = harder.terrain_at(tx, ty);
    lemma_held_neighbors(easier, attacker, tx, ty, 4);
    lemma_weights(
        jitter,
        4 - 2 * held + terrain_quarters(t),
        4 - 2 * held + terrain_quarters(u),
    );
    lemma_priority_monotone(
        weight_quarters(jitter, held, t),
        weight_quarters(jitter, held, u),
        tick,
    );
}

/// Weights are ordered as their factors are, and small.
proof fn lemma_weights(jitter: int, a: int, b: int)
    requires
        10 <= jitter <= 16,
        -4 <= a <= b <= 8,
    ensures
        -1000 <= jitter * a <= jitter * b <= 1000,
{
    assert(-1000 <= jitter * a <= jitter * b <= 1000) by (nonlinear_arith)
        requires
            10 <= jitter <= 16,
            -4 <= a <= b <= 8,
    ;
}

/// What the scan has found: no tile twice, no more than an attack stores, only what the scan met,
/// and all of that unless the border is full.
pub proof fn lemma_border_found(
    board: Board,
    attacker: u32,
    target: u32,
    tick: u64,
    chunks: Seq<u64>,
    n: int,
)
    ensures
        ({
            let border = border_found(board, attacker, target, tick, chunks, n);
            &&& border.len() <= ATTACK_HEAP_CAP
            &&& forall|i: int, j: int|
                0 <= i < j < border.len() ==> (#[trigger] border[i]).0 != (#[trigger] border[j]).0
            &&& forall|i: int|
                0 <= i < border.len() ==> scan_meets(
                    board,
                    attacker,
                    target,
                    tick,
                    chunks,
                    n,
                    #[trigger] border[i],
                )
            &&& border.len() < ATTACK_HEAP_CAP ==> forall|k: int|
                0 <= k < n && (#[trigger] scan_prey(board, attacker, target, chunks, k)) is Some
                    ==> lists_tile(
                    border,
                    tile_at(
                        scan_prey(board, attacker, target, chunks, k)->Some_0.0,
                        scan_prey(board, attacker, target, chunks, k)->Some_0.1,
                    ),
                )
        }),
    decreases n,
{
    if n > 0 {
        lemma_border_found(board, attacker, target, tick, chunks, n - 1);
        let before = border_found(board, attacker, target, tick, chunks, n - 1);
        let border = border_found(board, attacker, target, tick, chunks, n);
        let prey = scan_prey(board, attacker, target, chunks, n - 1);
        assert forall|i: int| 0 <= i < border.len() implies scan_meets(
            board,
            attacker,
            target,
            tick,
            chunks,
            n,
            #[trigger] border[i],
        ) by {
            if i < before.len() {
                assert(border[i] == before[i]);
                let k = choose|k: int|
                    0 <= k < n - 1 && met_at(
                        board,
                        attacker,
                        target,
                        tick,
                        #[trigger] scan_prey(board, attacker, target, chunks, k),
                        before[i],
                    );
                assert(met_at(
                    board,
                    attacker,
                    target,
                    tick,
                    scan_prey(board, attacker, target, chunks, k),
                    border[i],
                ));
            } else {
                assert(met_at(board, attacker, target, tick, prey, border[i]));
            }
        }
        if border.len() > before.len() {
            let entry = border[before.len() as int];
            assert(!lists_tile(before, entry.0));
            assert forall|i: int, j: int| 0 <= i < j < border.len() implies (#[trigger] border[i]).0
                != (#[trigger] border[j]).0 by {
                assert(border[i] == before[i]);
                if j < before.len() {
                    assert(border[j] == before[j]);
                }
            }
        }
        if border.len() < ATTACK_HEAP_CAP {
            assert forall|k: int|
                0 <= k < n && (#[trigger] scan_prey(board, attacker, target, chunks, k)) is Some
                implies lists_tile(
                border,
                tile_at(
                    scan_prey(board, attacker, target, chunks, k)->Some_0.0,
                    scan_prey(board, attacker, target, chunks, k)->Some_0.1,
                ),
            ) by {
                let (nx, ny) = scan_prey(board, attacker, target, chunks, k)->Some_0;
                if border.len() > before.len() {
                    lemma_lists_push(before, border[before.len() as int], tile_at(nx, ny));
                }
            }
        }
    }
}

/// Is this the entry of what the scan met at a place?
pub open spec fn met_at(
    board: Board,
    attacker: u32,
    target: u32,
    tick: u64,
    prey: Option<(int, int)>,
    entry: (u32, i32),
) -> bool {
    prey is Some && entry == (
        tile_at(prey->Some_0.0, prey->Some_0.1),
        tile_priority(board, attacker, prey->Some_0.0, prey->Some_0.1, tick),
    )
}

/// Is this the entry of what the scan met at one of its first `n` places?
pub open spec fn scan_meets(
    board: Board,
    attacker: u32,
    target: u32,
    tick: u64,
    chunks: Seq<u64>,
    n: int,
    entry: (u32, i32),
) -> bool {
    exists|k: int|
        0 <= k < n && met_at(
            board,
            attacker,
            target,
            tick,
            #[trigger] scan_prey(board, attacker, target, chunks, k),
            entry,
        )
}

/// Are these ids of chunks of the match?
pub open spec fn of_match(match_id: u64, chunks: Seq<u64>) -> bool {
    forall|i: int|
        0 <= i < chunks.len() ==> (#[trigger] chunks[i]) as int / 0x1_0000_0000 == match_id as int
            % 0x1_0000_0000
}

/// A tile found in a tracked chunk of the match is the player's.
pub proof fn lemma_cell_tile_held(board: Board, player: u32, chunk_id: u64, cell: int)
    requires
        chunk_id as int / 0x1_0000_0000 == board.match_id as int % 0x1_0000_0000,
        0 <= cell < CHUNK_TILES,
        player < UNCLAIMED,
        cell_tile(board, player, chunk_id, cell) is Some,
    ensures
        ({
            let (tx, ty) = cell_tile(board, player, chunk_id, cell)->Some_0;
            on_map(tx, ty) && board.owner_at(tx, ty) == Some(player)
        }),
{
    let index = chunk_id as int % 0x1_0000_0000;
    lemma_chunk_tile(index, cell);
    let (tx, ty) = chunk_tile(index, cell);
    lemma_chunk_key(board.match_id, index);
    assert(chunk_key(board.match_id, index) == chunk_id);
    assert(tile_chunk_key(board.match_id, tx, ty) == chunk_id);
}

/// The direction that leads back from a neighbour.
pub open spec fn opposite(d: int) -> int {
    if d == 0 {
        1
    } else if d == 1 {
        0
    } else if d == 2 {
        3
    } else {
        2
    }
}

/// The border of an attack is at most as long as an attack stores, has no tile twice, and holds
/// only land that the attack can take, next to a tile of the attacker.
pub proof fn lemma_border_sound(
    board: Board,
    attacker: u32,
    target: u32,
    tick: u64,
    chunks: Seq<u64>,
)
    requires
        attacker < UNCLAIMED,
        of_match(board.match_id, chunks),
    ensures
        ({
            let border = attack_border(board, attacker, target, tick, chunks);
            &&& border.len() <= ATTACK_HEAP_CAP
            &&& forall|i: int, j: int|
                0 <= i < j < border.len() ==> (#[trigger] border[i]).0 != (#[trigger] border[j]).0
            &&& forall|i: int|
                0 <= i < border.len() ==> on_front(board, attacker, target, (#[trigger] border[i]).0)
        }),
{
    let n = chunks.len() as int * 4096;
    let border = attack_border(board, attacker, target, tick, chunks);
    lemma_border_found(board, attacker, target, tick, chunks, n);
    assert forall|i: int| 0 <= i < border.len() implies on_front(
        board,
        attacker,
        target,
        (#[trigger] border[i]).0,
    ) by {
        assert(scan_meets(board, attacker, target, tick, chunks, n, border[i]));
        let k = choose|k: int|
            0 <= k < n && met_at(
                board,
                attacker,
                target,
                tick,
                #[trigger] scan_prey(board, attacker, target, chunks, k),
                border[i],
            );
        let (nx, ny) = scan_prey(board, attacker, target, chunks, k)->Some_0;
        let c = chunks[k / 4096];
        let (tx, ty) = cell_tile(board, attacker, c, k / 4 % 1024)->Some_0;
        lemma_cell_tile_held(board, attacker, c, k / 4 % 1024);
        assert(beside(nx, ny, opposite(k % 4)) == (tx, ty));
        assert(holds_beside(board, attacker, nx, ny, opposite(k % 4)));
        lemma_tile_index(nx, ny);
    }
}

/// Is the tile land that an attack on the target can take, next to a tile of the attacker?
pub open spec fn on_front(board: Board, attacker: u32, target: u32, tile: u32) -> bool {
    let tx = tile as int % SIM_W as int;
    let ty = tile as int / SIM_W as int;
    &&& tile < SIM_TILES
    &&& board.is_land(tx, ty)
    &&& capturable(target, board.owner_at(tx, ty))
    &&& exists|d: int| 0 <= d < 4 && #[trigger] holds_beside(board, attacker, tx, ty, d)
}

/// A border that is not full holds all land that the attack can take next to a tile of the attacker
/// in a tracked chunk.
pub proof fn lemma_border_complete(
    board: Board,
    attacker: u32,
    target: u32,
    tick: u64,
    chunks: Seq<u64>,
    tx: int,
    ty: int,
    d: int,
)
    requires
        0 <= d < 4,
        on_map(tx, ty),
        board.owner_at(tx, ty) == Some(attacker),
        chunks.contains(tile_chunk_key(board.match_id, tx, ty)),
        prey_beside(board, target, tx, ty, d) is Some,
        attack_border(board, attacker, target, tick, chunks).len() < ATTACK_HEAP_CAP,
    ensures
        ({
            let (nx, ny) = beside(tx, ty, d);
            lists_tile(attack_border(board, attacker, target, tick, chunks), tile_at(nx, ny))
        }),
{
    let n = chunks.len() as int * 4096;
    let key = tile_chunk_key(board.match_id, tx, ty);
    let c = choose|c: int| 0 <= c < chunks.len() && chunks[c] == key;
    let cell = cell_of(tx, ty);
    let k = c * 4096 + cell * 4 + d;
    lemma_chunk_in_range(tx, ty);
    lemma_tile_cell(tx, ty);
    lemma_chunk_key(
        board.match_id,
        chunk_index(tx / CHUNK_SIZE as int, ty / CHUNK_SIZE as int),
    );
    lemma_scan_place(c, cell, d);
    lemma_border_found(board, attacker, target, tick, chunks, n);
    assert(cell_tile(board, attacker, key, cell) == Some((tx, ty)));
    assert(scan_prey(board, attacker, target, chunks, k) == prey_beside(board, target, tx, ty, d));
}

/// The place of the scan at a chunk, a cell and a neighbour.
proof fn lemma_scan_place(c: int, cell: int, d: int)
    requires
        0 <= c,
        0 <= cell < 1024,
        0 <= d < 4,
    ensures
        (c * 4096 + cell * 4 + d) / 4096 == c,
        (c * 4096 + cell * 4 + d) / 4 % 1024 == cell,
        (c * 4096 + cell * 4 + d) % 4 == d,
{
}

} // verus!
