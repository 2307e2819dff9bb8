//! The simulation grid: tiles, the chunks they are stored in, and the ids of those chunks.

use vstd::prelude::*;

verus! {

/// Width of the map in tiles.
pub const SIM_W: u32 = 1350;

/// Height of the map in tiles.
pub const SIM_H: u32 = 675;

/// Number of tiles on the map.
pub const SIM_TILES: u32 = 911_250;

/// Side of a square chunk, in tiles.
pub const CHUNK_SIZE: u32 = 32;

/// Number of tiles in a chunk.
pub const CHUNK_TILES: u32 = 1024;

/// Number of chunk columns.
pub const CHUNKS_X: u32 = 43;

/// Number of chunk rows.
pub const CHUNKS_Y: u32 = 22;

/// The terrain code of the ocean. Land is plains (1), highland (2) or mountain (3).
pub const TERRAIN_OCEAN: u8 = 0;

/// Two spawn tiles of a match are at least this far apart.
pub const MIN_SPAWN_DIST: u32 = 30;

/// Is the point a tile of the map?
pub open spec fn on_map(tx: int, ty: int) -> bool {
    0 <= tx < SIM_W && 0 <= ty < SIM_H
}

/// The place of a tile inside its chunk's arrays.
pub open spec fn cell_of(tx: int, ty: int) -> int {
    (ty % CHUNK_SIZE as int) * CHUNK_SIZE + tx % CHUNK_SIZE as int
}

/// The row-major index of a chunk.
pub open spec fn chunk_index(cx: int, cy: int) -> int {
    cy * CHUNKS_X + cx
}

/// The stored id of a chunk: the match in the upper half, the chunk's index in the lower half.
/// Only the lower half of the match id takes part.
pub open spec fn chunk_key(match_id: u64, index: int) -> int {
    (match_id as int % 0x1_0000_0000) * 0x1_0000_0000 + index
}

/// The stored id of the chunk that holds a tile.
pub open spec fn tile_chunk_key(match_id: u64, tx: int, ty: int) -> u64 {
    chunk_key(match_id, chunk_index(tx / CHUNK_SIZE as int, ty / CHUNK_SIZE as int)) as u64
}

/// The point of a chunk's cell.
pub open spec fn chunk_tile(index: int, cell: int) -> (int, int) {
    (
        (index % CHUNKS_X as int) * CHUNK_SIZE + cell % CHUNK_SIZE as int,
        (index / CHUNKS_X as int) * CHUNK_SIZE + cell / CHUNK_SIZE as int,
    )
}

/// The squared distance of two points.
pub open spec fn distance_squared(a: (u32, u32), b: (u32, u32)) -> int {
    (a.0 - b.0) * (a.0 - b.0) + (a.1 - b.1) * (a.1 - b.1)
}

/// The row-major index of a tile.
pub fn tile_idx(x: u32, y: u32) -> (r: u32)
    requires
        y * SIM_W + x <= u32::MAX,
    ensures
        r == y * SIM_W + x,
{
    y * SIM_W + x
}

/// The row-major index of a chunk.
pub fn chunk_idx(cx: u32, cy: u32) -> (r: u32)
    requires
        chunk_index(cx as int, cy as int) <= u32::MAX,
    ensures
        r == chunk_index(cx as int, cy as int),
{
    cy * CHUNKS_X + cx
}

/// Splits a tile's coordinates into its chunk's and those inside the chunk.
pub fn tile_to_chunk(tx: u32, ty: u32) -> (r: (u32, u32, u32, u32))
    ensures
        r.0 == tx as int / CHUNK_SIZE as int,
        r.1 == ty as int / CHUNK_SIZE as int,
        r.2 == tx as int % CHUNK_SIZE as int,
        r.3 == ty as int % CHUNK_SIZE as int,
{
    let cx: u32 = tx / CHUNK_SIZE;
    let cy: u32 = ty / CHUNK_SIZE;
    let lx: u32 = tx % CHUNK_SIZE;
    let ly: u32 = ty % CHUNK_SIZE;
    (cx, cy, lx, ly)
}

/// Joins a match id and a chunk index into a stored chunk id.
pub fn join_chunk_id(match_id: u64, index: u32) -> (r: u64)
    ensures
        r == chunk_key(match_id, index as int),
{
    let wide: u64 = index as u64;
    proof {
        assert(((match_id << 32u64) | wide) == ((match_id % 0x1_0000_0000) * 0x1_0000_0000 + wide))
            by (bit_vector)
            requires
                wide <= 0xFFFF_FFFF,
        ;
    }
    (match_id << 32u64) | wide
}

/// The chunk index inside a stored chunk id.
pub fn local_chunk_idx(chunk_id: u64) -> (r: u32)
    ensures
        r == chunk_id as int % 0x1_0000_0000,
{
    proof {
        assert((chunk_id & 0xFFFF_FFFF) == chunk_id % 0x1_0000_0000) by (bit_vector);
    }
    (chunk_id & 0xFFFF_FFFF) as u32
}

/// The stored id of the chunk that holds a tile, if the tile is on the map.
pub fn spawn_chunk_id(match_id: u64, tx: u32, ty: u32) -> (r: Option<u64>)
    ensures
        r == (if on_map(tx as int, ty as int) {
            Some(tile_chunk_key(match_id, tx as int, ty as int))
        } else {
            None
        }),
{
    if tx >= SIM_W || ty >= SIM_H {
        return None;
    }
    let cx: u32 = tx / CHUNK_SIZE;
    let cy: u32 = ty / CHUNK_SIZE;
    Some(join_chunk_id(match_id, chunk_idx(cx, cy)))
}

/// The stored id of the chunk that holds the tile with this row-major index, if there is one.
pub fn tile_chunk_id(match_id: u64, tile: u32) -> (r: Option<u64>)
    ensures
        r == (if tile < SIM_TILES {
            Some(
                tile_chunk_key(
                    match_id,
                    tile as int % SIM_W as int,
                    tile as int / SIM_W as int,
                ),
            )
        } else {
            None
        }),
{
    spawn_chunk_id(match_id, tile % SIM_W, tile / SIM_W)
}

/// The squared distance of two points.
pub fn dist_sq(a: (u32, u32), b: (u32, u32)) -> (r: u32)
    requires
        distance_squared(a, b) <= u32::MAX || (on_map(a.0 as int, a.1 as int) && on_map(
            b.0 as int,
            b.1 as int,
        )),
    ensures
        r == distance_squared(a, b),
{
    let dx: u32 = if a.0 > b.0 { a.0 - b.0 } else { b.0 - a.0 };
    let dy: u32 = if a.1 > b.1 { a.1 - b.1 } else { b.1 - a.1 };
    proof {
        if on_map(a.0 as int, a.1 as int) && on_map(b.0 as int, b.1 as int) {
            assert(dx * dx + dy * dy <= 1350 * 1350 + 675 * 675) by (nonlinear_arith)
                requires
                    dx < 1350,
                    dy < 675,
            ;
        }
        assert(dx * dx == (a.0 - b.0) * (a.0 - b.0)) by (nonlinear_arith)
            requires
                dx == a.0 - b.0 || dx == b.0 - a.0,
        ;
        assert(dy * dy == (a.1 - b.1) * (a.1 - b.1)) by (nonlinear_arith)
            requires
                dy == a.1 - b.1 || dy == b.1 - a.1,
        ;
        assert(0 <= dx * dx) by (nonlinear_arith);
        assert(0 <= dy * dy) by (nonlinear_arith);
    }
    dx * dx + dy * dy
}

/// The baked terrain code of a point: ocean outside the map.
pub fn mask_terrain(terrain: &[u8], tx: u32, ty: u32) -> (r: u8)
    requires
        terrain@.len() == SIM_TILES,
    ensures
        r == baked_terrain(terrain@, tx as int, ty as int),
{
    if tx >= SIM_W || ty >= SIM_H {
        return TERRAIN_OCEAN;
    }
    terrain[(ty * SIM_W + tx) as usize]
}

/// The terrain code of a point in the baked row-major terrain array.
pub open spec fn baked_terrain(terrain: Seq<u8>, tx: int, ty: int) -> u8 {
    if on_map(tx, ty) {
        terrain[ty * SIM_W + tx]
    } else {
        TERRAIN_OCEAN
    }
}

/// A quotient and a remainder are those of the number they make.
pub proof fn lemma_split(q: int, r: int, d: int)
    requires
        0 <= r < d,
    ensures
        (q * d + r) / d == q,
        (q * d + r) % d == r,
{
    vstd::arithmetic::div_mod::lemma_fundamental_div_mod_converse(q * d + r, d, q, r);
}

/// A tile's row-major index gives its point back.
pub proof fn lemma_tile_index(tx: int, ty: int)
    requires
        on_map(tx, ty),
    ensures
        0 <= ty * SIM_W + tx < SIM_TILES,
        (ty * SIM_W + tx) % SIM_W as int == tx,
        (ty * SIM_W + tx) / SIM_W as int == ty,
{
    lemma_split(ty, tx, SIM_W as int);
}

/// A row-major index is that of a point on the map.
pub proof fn lemma_tile_point(t: int)
    requires
        0 <= t < SIM_TILES,
    ensures
        on_map(t % SIM_W as int, t / SIM_W as int),
        (t / SIM_W as int) * SIM_W + t % SIM_W as int == t,
{
}

/// The chunk of a tile is one of the map's.
pub proof fn lemma_chunk_in_range(tx: int, ty: int)
    requires
        on_map(tx, ty),
    ensures
        0 <= chunk_index(tx / CHUNK_SIZE as int, ty / CHUNK_SIZE as int) < CHUNKS_X * CHUNKS_Y,
        0 <= cell_of(tx, ty) < CHUNK_TILES,
        0 <= tx / CHUNK_SIZE as int,
        tx / CHUNK_SIZE as int <= CHUNKS_X - 1,
{
}

/// A chunk id holds the chunk's index in its lower half: chunks of a match never share an id.
pub proof fn lemma_chunk_key(match_id: u64, index: int)
    requires
        0 <= index < 0x1_0000_0000,
    ensures
        0 <= chunk_key(match_id, index) <= u64::MAX,
        chunk_key(match_id, index) % 0x1_0000_0000 == index,
        chunk_key(match_id, index) / 0x1_0000_0000 == match_id as int % 0x1_0000_0000,
{
    lemma_split(match_id as int % 0x1_0000_0000, index, 0x1_0000_0000);
}

/// The point of a chunk's cell lies in that chunk and at that cell.
pub proof fn lemma_chunk_tile(index: int, cell: int)
    requires
        0 <= index,
        0 <= cell < CHUNK_TILES,
    ensures
        ({
            let (tx, ty) = chunk_tile(index, cell);
            &&& chunk_index(tx / CHUNK_SIZE as int, ty / CHUNK_SIZE as int) == index
            &&& cell_of(tx, ty) == cell
        }),
{
    lemma_split(index % 43, cell % 32, 32);
    lemma_split(index / 43, cell / 32, 32);
}

/// The point of a tile's chunk and cell is the tile's.
pub proof fn lemma_tile_cell(tx: int, ty: int)
    requires
        on_map(tx, ty),
    ensures
        chunk_tile(
            chunk_index(tx / CHUNK_SIZE as int, ty / CHUNK_SIZE as int),
            cell_of(tx, ty),
        ) == (tx, ty),
{
    lemma_chunk_in_range(tx, ty);
    lemma_split(ty / 32, tx / 32, 43);
    lemma_split(ty % 32, tx % 32, 32);
}

} // verus!
