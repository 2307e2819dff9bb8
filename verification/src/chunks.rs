//! Tile ownership and terrain: single chunk rows, and the cache through which a step of the
//! simulation reads and writes many of them.

use std::collections::HashMap;

use vstd::prelude::*;
use vstd::std_specs::hash::*;

use crate::grid::{
    cell_of, chunk_index, lemma_chunk_in_range, lemma_chunk_key, lemma_tile_cell, on_map,
    spawn_chunk_id, tile_chunk_key, tile_to_chunk, CHUNK_SIZE, SIM_H, SIM_W, TERRAIN_OCEAN,
};
use crate::tables::{ChunkView, TileChunk, UNCLAIMED};

verus! {

/// The player that an owner byte stands for.
pub open spec fn owner_of_byte(byte: u8) -> Option<u32> {
    if byte == UNCLAIMED {
        None
    } else {
        Some(byte as u32)
    }
}

/// The terrain of a tile in the row of its chunk: ocean where the row has no such tile.
pub open spec fn row_terrain(row: ChunkView, tx: int, ty: int) -> u8 {
    if cell_of(tx, ty) < row.terrain.len() {
        row.terrain[cell_of(tx, ty)]
    } else {
        TERRAIN_OCEAN
    }
}

/// Who holds a tile, in the row of its chunk.
pub open spec fn row_owner(row: ChunkView, tx: int, ty: int) -> Option<u32> {
    if cell_of(tx, ty) < row.owners.len() {
        owner_of_byte(row.owners[cell_of(tx, ty)])
    } else {
        None
    }
}

/// The row after a tile has been given to a player, of whose id one byte is stored.
pub open spec fn row_claimed(row: ChunkView, tx: int, ty: int, owner: u32) -> ChunkView {
    if cell_of(tx, ty) < row.owners.len() {
        ChunkView { owners: row.owners.update(cell_of(tx, ty), owner as u8), ..row }
    } else {
        row
    }
}

/// The known chunk rows of a match, by their ids.
#[verifier::ext_equal]
pub struct Board {
    pub match_id: u64,
    pub rows: Map<u64, ChunkView>,
}

impl Board {
    /// The row that holds a tile.
    pub open spec fn row_at(self, tx: int, ty: int) -> Option<ChunkView> {
        let key = tile_chunk_key(self.match_id, tx, ty);
        if on_map(tx, ty) && self.rows.contains_key(key) {
            Some(self.rows[key])
        } else {
            None
        }
    }

    /// The terrain of a tile: ocean off the map and where no row is known.
    pub open spec fn terrain_at(self, tx: int, ty: int) -> u8 {
        match self.row_at(tx, ty) {
            Some(row) => row_terrain(row, tx, ty),
            None => TERRAIN_OCEAN,
        }
    }

    /// Is the tile land?
    pub open spec fn is_land(self, tx: int, ty: int) -> bool {
        self.terrain_at(tx, ty) != TERRAIN_OCEAN
    }

    /// Who holds a tile.
    pub open spec fn owner_at(self, tx: int, ty: int) -> Option<u32> {
        match self.row_at(tx, ty) {
            Some(row) => row_owner(row, tx, ty),
            None => None,
        }
    }

    /// Has the tile an owner byte at all?
    pub open spec fn has_tile(self, tx: int, ty: int) -> bool {
        match self.row_at(tx, ty) {
            Some(row) => cell_of(tx, ty) < row.owners.len(),
            None => false,
        }
    }

    /// The board after a stored row has been taken in.
    pub open spec fn loaded(self, id: u64, row: ChunkView) -> Board {
        if self.rows.contains_key(id) {
            self
        } else {
            Board { rows: self.rows.insert(id, row), ..self }
        }
    }

    /// The board after a tile has been given to a player.
    pub open spec fn claimed(self, tx: int, ty: int, owner: u32) -> Board {
        match self.row_at(tx, ty) {
            Some(row) => Board {
                rows: self.rows.insert(
                    tile_chunk_key(self.match_id, tx, ty),
                    row_claimed(row, tx, ty, owner),
                ),
                ..self
            },
            None => self,
        }
    }

    /// The ids of the written rows after a tile has been given to a player: the row of the tile is
    /// one of them, unless the tile was the player's before.
    pub open spec fn written(self, dirty: Set<u64>, tx: int, ty: int, owner: u32) -> Set<u64> {
        if self.has_tile(tx, ty) && self.row_at(tx, ty)->Some_0.owners[cell_of(tx, ty)] != owner {
            dirty.insert(tile_chunk_key(self.match_id, tx, ty))
        } else {
            dirty
        }
    }

    /// Does some tile of a chunk carry a player's byte?
    pub open spec fn chunk_has_owner(self, chunk_id: u64, owner: u32) -> bool {
        self.rows.contains_key(chunk_id) && self.rows[chunk_id].owners.contains(owner as u8)
    }
}

/// Two tiles of the map that lie in the same chunk and at the same cell are the same tile.
pub proof fn lemma_same_tile(match_id: u64, tx: int, ty: int, ux: int, uy: int)
    requires
        on_map(tx, ty),
        on_map(ux, uy),
        tile_chunk_key(match_id, tx, ty) == tile_chunk_key(match_id, ux, uy),
        cell_of(tx, ty) == cell_of(ux, uy),
    ensures
        (tx, ty) == (ux, uy),
{
    lemma_chunk_in_range(tx, ty);
    lemma_chunk_in_range(ux, uy);
    lemma_chunk_key(match_id, chunk_index(tx / CHUNK_SIZE as int, ty / CHUNK_SIZE as int));
    lemma_chunk_key(match_id, chunk_index(ux / CHUNK_SIZE as int, uy / CHUNK_SIZE as int));
    lemma_tile_cell(tx, ty);
    lemma_tile_cell(ux, uy);
}

/// A tile that has been given to a player is that player's, every other tile has the owner it
/// had, and no terrain changes.
pub proof fn lemma_claimed(board: Board, tx: int, ty: int, owner: u32, ux: int, uy: int)
    ensures
        ({
            let after = board.claimed(tx, ty, owner);
            &&& after.terrain_at(ux, uy) == board.terrain_at(ux, uy)
            &&& after.has_tile(ux, uy) == board.has_tile(ux, uy)
            &&& (ux, uy) == (tx, ty) && board.has_tile(tx, ty) ==> after.owner_at(ux, uy)
                == owner_of_byte(owner as u8)
            &&& (ux, uy) != (tx, ty) || !board.has_tile(tx, ty) ==> after.owner_at(ux, uy)
                == board.owner_at(ux, uy)
        }),
{
    if on_map(tx, ty) && on_map(ux, uy) && tile_chunk_key(board.match_id, tx, ty)
        == tile_chunk_key(board.match_id, ux, uy) {
        lemma_chunk_in_range(tx, ty);
        lemma_chunk_in_range(ux, uy);
        if cell_of(tx, ty) == cell_of(ux, uy) {
            lemma_same_tile(board.match_id, tx, ty, ux, uy);
        }
    }
}

/// Is the tile land, in the row of its chunk?
pub fn is_land(row: Option<&TileChunk>, tx: u32, ty: u32) -> (r: bool)
    ensures
        r == (on_map(tx as int, ty as int) && row is Some && row_terrain(
            row->Some_0@,
            tx as int,
            ty as int,
        ) != TERRAIN_OCEAN),
{
    if tx >= SIM_W || ty >= SIM_H {
        return false;
    }
    let (_cx, _cy, lx, ly): (u32, u32, u32, u32) = tile_to_chunk(tx, ty);
    match row {
        Some(chunk) => {
            let idx: usize = (ly * CHUNK_SIZE + lx) as usize;
            idx < chunk.terrain.len() && chunk.terrain[idx] != TERRAIN_OCEAN
        },
        None => false,
    }
}

/// Who holds the tile, in the row of its chunk.
pub fn get_owner(row: Option<&TileChunk>, tx: u32, ty: u32) -> (r: Option<u32>)
    ensures
        r == (if on_map(tx as int, ty as int) && row is Some {
            row_owner(row->Some_0@, tx as int, ty as int)
        } else {
            None
        }),
{
    if tx >= SIM_W || ty >= SIM_H {
        return None;
    }
    let (_cx, _cy, lx, ly): (u32, u32, u32, u32) = tile_to_chunk(tx, ty);
    match row {
        Some(chunk) => {
            let idx: usize = (ly * CHUNK_SIZE + lx) as usize;
            if idx < chunk.owners.len() && chunk.owners[idx] != UNCLAIMED {
                Some(chunk.owners[idx] as u32)
            } else {
                None
            }
        },
        None => None,
    }
}

/// Gives the tile to a player, in the row of its chunk. Returns whether the row is to be stored.
pub fn set_owner(row: &mut TileChunk, tx: u32, ty: u32, owner: u32) -> (r: bool)
    ensures
        r == (on_map(tx as int, ty as int) && cell_of(tx as int, ty as int) < old(
            row,
        )@.owners.len()),
        final(row)@ == (if r {
            row_claimed(old(row)@, tx as int, ty as int, owner)
        } else {
            old(row)@
        }),
{
    if tx >= SIM_W || ty >= SIM_H {
        return false;
    }
    let (_cx, _cy, lx, ly): (u32, u32, u32, u32) = tile_to_chunk(tx, ty);
    let idx: usize = (ly * CHUNK_SIZE + lx) as usize;
    if idx < row.owners.len() {
        row.owners.set(idx, owner as u8);
        true
    } else {
        false
    }
}

/// Does some tile carry this byte?
fn holds_byte(owners: &Vec<u8>, byte: u8) -> (r: bool)
    ensures
        r == owners@.contains(byte),
{
    let mut i: usize = 0;
    while i < owners.len()
        invariant
            i <= owners@.len(),
            forall|j: int| 0 <= j < i ==> owners@[j] != byte,
        decreases owners@.len() - i,
    {
        if owners[i] == byte {
            return true;
        }
        i += 1;
    }
    false
}

/// A cached row, and whether it has been written to.
struct ChunkCacheEntry {
    chunk: TileChunk,
    dirty: bool,
}

/// The chunk rows that a step of the simulation works on. Rows are loaded once, edited here any
/// number of times, and handed back once each if they were edited.
pub struct ChunkCache {
    match_id: u64,
    entries: Vec<ChunkCacheEntry>,
    index: HashMap<u64, usize>,
}

impl ChunkCache {
    /// The index finds every entry by the id of its row.
    pub closed spec fn wf(&self) -> bool {
        &&& forall|id: u64| #[trigger]
            self.index@.contains_key(id) ==> self.index@[id] < self.entries@.len()
                && self.entries@[self.index@[id] as int].chunk.id == id
        &&& forall|i: int|
            0 <= i < self.entries@.len() ==> self.index@.contains_key(
                (#[trigger] self.entries@[i]).chunk.id,
            ) && self.index@[self.entries@[i].chunk.id] == i
    }

    /// The rows as they are now.
    pub closed spec fn board(&self) -> Board {
        Board {
            match_id: self.match_id,
            rows: Map::new(
                |id: u64| self.index@.contains_key(id),
                |id: u64| self.entries@[self.index@[id] as int].chunk@,
            ),
        }
    }

    /// The ids of the rows that have been written to.
    pub closed spec fn dirty(&self) -> Set<u64> {
        Set::new(
            |id: u64|
                self.index@.contains_key(id) && self.entries@[self.index@[id] as int].dirty,
        )
    }

    /// An empty cache for the chunks of a match.
    pub fn new(match_id: u64) -> (r: ChunkCache)
        ensures
            r.wf(),
            r.board() == (Board { match_id, rows: Map::empty() }),
            r.dirty() == Set::<u64>::empty(),
    {
        broadcast use group_hash_axioms;

        let r = ChunkCache { match_id, entries: Vec::new(), index: HashMap::new() };
        assert(r.board().rows =~= Map::empty());
        assert(r.dirty() =~= Set::empty());
        r
    }

    /// The id of the row that holds a tile, if the tile is on the map.
    pub fn full_chunk_id(&self, tx: u32, ty: u32) -> (r: Option<u64>)
        ensures
            r == (if on_map(tx as int, ty as int) {
                Some(tile_chunk_key(self.board().match_id, tx as int, ty as int))
            } else {
                None
            }),
    {
        spawn_chunk_id(self.match_id, tx, ty)
    }

    /// Takes a stored row in, unless the cache already has one with its id.
    pub fn load(&mut self, chunk: TileChunk)
        requires
            old(self).wf(),
        ensures
            final(self).wf(),
            final(self).board() == old(self).board().loaded(chunk.id, chunk@),
            final(self).dirty() == old(self).dirty(),
    {
        broadcast use group_hash_axioms;

        if !self.index.contains_key(&chunk.id) {
            let place: usize = self.entries.len();
            let ghost id = chunk.id;
            let ghost row = chunk@;
            self.index.insert(chunk.id, place);
            self.entries.push(ChunkCacheEntry { chunk, dirty: false });
            assert(self.board().rows =~= old(self).board().rows.insert(id, row));
            assert(self.dirty() =~= old(self).dirty());
        }
    }

    /// The place of a row among the entries.
    fn find(&self, chunk_id: u64) -> (r: Option<usize>)
        requires
            self.wf(),
        ensures
            r == (if self.index@.contains_key(chunk_id) {
                Some(self.index@[chunk_id])
            } else {
                None
            }),
    {
        broadcast use group_hash_axioms;

        match self.index.get(&chunk_id) {
            Some(place) => Some(*place),
            None => None,
        }
    }

    /// Is the tile land?
    pub fn is_land(&self, tx: u32, ty: u32) -> (r: bool)
        requires
            self.wf(),
        ensures
            r == self.board().is_land(tx as int, ty as int),
    {
        self.terrain_at(tx, ty) != TERRAIN_OCEAN
    }

    /// The terrain of a tile.
    pub fn terrain_at(&self, tx: u32, ty: u32) -> (r: u8)
        requires
            self.wf(),
        ensures
            r == self.board().terrain_at(tx as int, ty as int),
    {
        let chunk_id: u64 = match self.full_chunk_id(tx, ty) {
            Some(chunk_id) => chunk_id,
            None => {
                return TERRAIN_OCEAN;
            },
        };
        let place: usize = match self.find(chunk_id) {
            Some(place) => place,
            None => {
                return TERRAIN_OCEAN;
            },
        };
        let lx: u32 = tx % CHUNK_SIZE;
        let ly: u32 = ty % CHUNK_SIZE;
        let idx: usize = (ly * CHUNK_SIZE + lx) as usize;
        let chunk: &TileChunk = &self.entries[place].chunk;
        if idx < chunk.terrain.len() {
            chunk.terrain[idx]
        } else {
            TERRAIN_OCEAN
        }
    }

    /// Who holds a tile.
    pub fn get_owner(&self, tx: u32, ty: u32) -> (r: Option<u32>)
        requires
            self.wf(),
        ensures
            r == self.board().owner_at(tx as int, ty as int),
    {
        let chunk_id: u64 = match self.full_chunk_id(tx, ty) {
            Some(chunk_id) => chunk_id,
            None => {
                return None;
            },
        };
        let place: usize = match self.find(chunk_id) {
            Some(place) => place,
            None => {
                return None;
            },
        };
        let lx: u32 = tx % CHUNK_SIZE;
        let ly: u32 = ty % CHUNK_SIZE;
        let idx: usize = (ly * CHUNK_SIZE + lx) as usize;
        let chunk: &TileChunk = &self.entries[place].chunk;
        if idx < chunk.owners.len() && chunk.owners[idx] != UNCLAIMED {
            Some(chunk.owners[idx] as u32)
        } else {
            None
        }
    }

    /// Gives a tile to a player. Returns the id of the tile's chunk and who held the tile before,
    /// or `None` where the cache has no such tile.
    pub fn set_owner(&mut self, tx: u32, ty: u32, new_owner: u32) -> (r: Option<(u64, Option<u32>)>)
        requires
            old(self).wf(),
        ensures
            final(self).wf(),
            r == (if old(self).board().has_tile(tx as int, ty as int) {
                Some(
                    (
                        tile_chunk_key(old(self).board().match_id, tx as int, ty as int),
                        old(self).board().owner_at(tx as int, ty as int),
                    ),
                )
            } else {
                None
            }),
            final(self).board() == old(self).board().claimed(tx as int, ty as int, new_owner),
            final(self).dirty() == old(self).board().written(
                old(self).dirty(),
                tx as int,
                ty as int,
                new_owner,
            ),
    {
        let chunk_id: u64 = match self.full_chunk_id(tx, ty) {
            Some(chunk_id) => chunk_id,
            None => {
                return None;
            },
        };
        let place: usize = match self.find(chunk_id) {
            Some(place) => place,
            None => {
                return None;
            },
        };
        let lx: u32 = tx % CHUNK_SIZE;
        let ly: u32 = ty % CHUNK_SIZE;
        let idx: usize = (ly * CHUNK_SIZE + lx) as usize;
        if idx >= self.entries[place].chunk.owners.len() {
            assert(self.board().claimed(tx as int, ty as int, new_owner).rows
                =~= self.board().rows);
            return None;
        }
        let prev: u8 = self.entries[place].chunk.owners[idx];
        let prev_owner: Option<u32> = if prev == UNCLAIMED { None } else { Some(prev as u32) };
        if prev as u32 == new_owner {
            assert(self.entries@[place as int].chunk.owners@.update(idx as int, new_owner as u8)
                =~= self.entries@[place as int].chunk.owners@);
            assert(self.board().claimed(tx as int, ty as int, new_owner).rows
                =~= self.board().rows);
            return Some((chunk_id, prev_owner));
        }
        self.entries[place].chunk.owners[idx] = new_owner as u8;
        self.entries[place].dirty = true;
        assert(self.board().rows =~= old(self).board().claimed(
            tx as int,
            ty as int,
            new_owner,
        ).rows);
        assert(self.dirty() =~= old(self).dirty().insert(chunk_id));
        Some((chunk_id, prev_owner))
    }

    /// A copy of the owner bytes of a chunk.
    pub fn clone_owners(&self, chunk_id: u64) -> (r: Option<Vec<u8>>)
        requires
            self.wf(),
        ensures
            r is Some <==> self.board().rows.contains_key(chunk_id),
            r is Some ==> r->Some_0@ == self.board().rows[chunk_id].owners,
    {
        match self.find(chunk_id) {
            Some(place) => {
                let copy = self.entries[place].chunk.owners.clone();
                assert(copy@ =~= self.entries@[place as int].chunk.owners@);
                Some(copy)
            },
            None => None,
        }
    }

    /// Does some tile of a chunk still belong to a player?
    pub fn chunk_has_owner(&self, chunk_id: u64, owner: u32) -> (r: bool)
        requires
            self.wf(),
        ensures
            r == self.board().chunk_has_owner(chunk_id, owner),
    {
        let place: usize = match self.find(chunk_id) {
            Some(place) => place,
            None => {
                return false;
            },
        };
        holds_byte(&self.entries[place].chunk.owners, owner as u8)
    }

    /// Ends the cache, and returns every row that has been written to, once.
    pub fn flush(self) -> (r: Vec<TileChunk>)
        requires
            self.wf(),
        ensures
            forall|i: int| #![trigger r@[i]]
                0 <= i < r@.len() ==> self.dirty().contains(r@[i].id) && r@[i]@
                    == self.board().rows[r@[i].id],
            forall|id: u64| #[trigger]
                self.dirty().contains(id) ==> exists|i: int|
                    0 <= i < r@.len() && (#[trigger] r@[i]).id == id,
            forall|i: int, j: int|
                0 <= i < j < r@.len() ==> (#[trigger] r@[i]).id != (#[trigger] r@[j]).id,
    {
        let ghost entries = self.entries@;
        let ghost cache = self;
        let mut rest: Vec<ChunkCacheEntry> = self.entries;
        let mut r: Vec<TileChunk> = Vec::new();
        while rest.len() > 0
            invariant
                cache.wf(),
                entries == cache.entries@,
                rest@.len() <= entries.len(),
                rest@ == entries.take(rest@.len() as int),
                forall|i: int| #![trigger r@[i]]
                    0 <= i < r@.len() ==> cache.dirty().contains(r@[i].id) && r@[i]@
                        == cache.board().rows[r@[i].id] && cache.index@[r@[i].id] >= rest@.len(),
                forall|k: int|
                    rest@.len() <= k < entries.len() && (#[trigger] entries[k]).dirty ==> exists|
                        i: int,
                    |
                        0 <= i < r@.len() && (#[trigger] r@[i]).id == entries[k].chunk.id,
                forall|i: int, j: int|
                    0 <= i < j < r@.len() ==> (#[trigger] r@[i]).id != (#[trigger] r@[j]).id,
            decreases rest@.len(),
        {
            let ghost before = r@;
            let entry = rest.pop();
            if let Some(entry) = entry {
                let ghost k = rest@.len() as int;
                assert(entry == entries[k]);
                if entry.dirty {
                    r.push(entry.chunk);
                    assert(r@[before.len() as int].id == entries[k].chunk.id);
                }
                assert forall|m: int|
                    rest@.len() <= m < entries.len() && (#[trigger] entries[m]).dirty implies exists|
                    i: int,
                |
                    0 <= i < r@.len() && (#[trigger] r@[i]).id == entries[m].chunk.id by {
                    if m > k {
                        let i = choose|i: int|
                            0 <= i < before.len() && (#[trigger] before[i]).id
                                == entries[m].chunk.id;
                        assert(r@[i] == before[i]);
                    }
                }
            }
        }
        assert forall|id: u64| #[trigger] cache.dirty().contains(id) implies exists|i: int|
            0 <= i < r@.len() && (#[trigger] r@[i]).id == id by {
            assert(entries[cache.index@[id] as int].dirty);
        }
        r
    }
}

} // verus!
