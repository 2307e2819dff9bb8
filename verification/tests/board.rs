use blue_marble_front::chunks::{get_owner, is_land, set_owner, ChunkCache};
use blue_marble_front::grid::{SIM_H, SIM_TILES, SIM_W};
use blue_marble_front::lobby::generate_terrain;
use blue_marble_front::players::{player_add_chunk, player_remove_chunk, OWNED_CHUNKS_CAP};
use blue_marble_front::quantity::zero;
use blue_marble_front::tables::{Identity, Player, TileChunk};

fn land() -> Vec<u8> {
    vec![1; SIM_TILES as usize]
}

fn loaded(match_id: u64) -> ChunkCache {
    let mut cache = ChunkCache::new(match_id);
    for chunk in generate_terrain(match_id, &land()).0 {
        cache.load(chunk);
    }
    cache
}

fn nobody() -> Player {
    Player {
        id: 4,
        match_id: 1,
        identity: Identity { hi: 0, lo: 4 },
        name: "P".to_string(),
        color: 0,
        spawn_tile: None,
        troops: zero(),
        gold: 0,
        max_troops: zero(),
        tiles: 0,
        alive: true,
        is_bot: false,
        traitor_until: 0,
        city_count: 0,
        city_levels: 0,
        owned_chunks: Vec::new(),
        next_attack_tick: 0,
    }
}

#[test]
fn terrain_is_cut_into_chunks() {
    let mut terrain: Vec<u8> = vec![0; SIM_TILES as usize];
    terrain[(33 * SIM_W + 70) as usize] = 2;
    terrain[(SIM_TILES - 1) as usize] = 3;
    let (chunks, total) = generate_terrain(9, &terrain);
    assert_eq!(chunks.len(), 946);
    assert_eq!(total, 2);
    let chunk = &chunks[45];
    assert_eq!(chunk.id, (9 << 32) | 45);
    assert_eq!(chunk.match_id, 9);
    assert_eq!((chunk.chunk_x, chunk.chunk_y), (2, 1));
    assert_eq!(chunk.owners, vec![255; 1024]);
    assert_eq!(chunk.terrain[32 + 6], 2);
    assert_eq!(chunk.terrain.iter().filter(|t| **t != 0).count(), 1);
    assert_eq!(chunks[945].terrain[2 * 32 + 5], 3);
}

#[test]
fn a_full_map_is_all_land() {
    let (chunks, total) = generate_terrain(1, &land());
    assert_eq!(total, SIM_TILES);
    assert_eq!(chunks[945].terrain.iter().filter(|t| **t != 0).count(), 6 * 3);
}

#[test]
fn rows_are_read_and_written() {
    let (chunks, _) = generate_terrain(1, &land());
    let mut row: TileChunk = chunks[0].clone();
    assert!(is_land(Some(&row), 3, 4));
    assert!(!is_land(None, 3, 4));
    assert!(!is_land(Some(&row), SIM_W, 4));
    assert_eq!(get_owner(Some(&row), 3, 4), None);
    assert!(set_owner(&mut row, 3, 4, 7));
    assert_eq!(get_owner(Some(&row), 3, 4), Some(7));
    assert_eq!(get_owner(Some(&row), 4, 4), None);
    assert_eq!(get_owner(None, 3, 4), None);
    assert!(!set_owner(&mut row, 3, SIM_H, 7));
    row.owners.clear();
    assert!(!set_owner(&mut row, 3, 4, 7));
    assert_eq!(get_owner(Some(&row), 3, 4), None);
    row.terrain.clear();
    assert!(!is_land(Some(&row), 3, 4));
}

#[test]
fn the_cache_reads_what_was_written() {
    let mut cache = loaded(1);
    assert_eq!(cache.set_owner(40, 50, 7), Some(((1 << 32) | 44, None)));
    assert_eq!(cache.get_owner(40, 50), Some(7));
    assert_eq!(cache.get_owner(41, 50), None);
    assert_eq!(cache.set_owner(40, 50, 9), Some(((1 << 32) | 44, Some(7))));
    assert_eq!(cache.get_owner(40, 50), Some(9));
    assert_eq!(cache.set_owner(SIM_W, 50, 9), None);
    assert_eq!(cache.terrain_at(40, 50), 1);
    assert_eq!(cache.terrain_at(SIM_W, 50), 0);
    assert!(cache.is_land(40, 50));
    assert!(cache.chunk_has_owner((1 << 32) | 44, 9));
    assert!(!cache.chunk_has_owner((1 << 32) | 44, 7));
    assert!(!cache.chunk_has_owner((2 << 32) | 44, 9));
    assert_eq!(cache.full_chunk_id(40, 50), Some((1 << 32) | 44));
    assert_eq!(cache.full_chunk_id(40, SIM_H), None);
}

#[test]
fn the_cache_knows_only_loaded_rows() {
    let mut cache = ChunkCache::new(1);
    assert!(!cache.is_land(0, 0));
    assert_eq!(cache.set_owner(0, 0, 7), None);
    assert_eq!(cache.clone_owners(1 << 32), None);
    let rows = generate_terrain(1, &land()).0;
    cache.load(rows[0].clone());
    assert!(cache.set_owner(0, 0, 7).is_some());
    cache.load(rows[0].clone());
    assert_eq!(cache.get_owner(0, 0), Some(7));
    assert_eq!(cache.clone_owners(1 << 32).map(|o| o[0]), Some(7));
}

#[test]
fn dirty_rows_come_back_once() {
    let mut cache = loaded(1);
    for tx in 0..20 {
        cache.set_owner(tx, 0, 7);
        cache.set_owner(tx, 40, 8);
    }
    cache.set_owner(100, 100, 255);
    let mut rows = cache.flush();
    rows.sort_by_key(|row| row.id);
    assert_eq!(rows.len(), 2);
    assert_eq!(rows[0].id, 1 << 32);
    assert_eq!(rows[0].owners.iter().filter(|o| **o == 7).count(), 20);
    assert_eq!(rows[1].id, (1 << 32) | 43);
    assert_eq!(rows[1].owners.iter().filter(|o| **o == 8).count(), 20);
    assert!(loaded(1).flush().is_empty());
}

#[test]
fn tracked_chunks_are_a_set() {
    let mut p = nobody();
    for chunk in [5, 6, 7, 6, 5] {
        player_add_chunk(&mut p, chunk);
    }
    assert_eq!(p.owned_chunks, vec![5, 6, 7]);
    player_remove_chunk(&mut p, 5);
    assert_eq!(p.owned_chunks, vec![7, 6]);
    player_remove_chunk(&mut p, 99);
    assert_eq!(p.owned_chunks, vec![7, 6]);
    p.owned_chunks = (0..OWNED_CHUNKS_CAP as u64).collect();
    player_add_chunk(&mut p, 5000);
    assert_eq!(p.owned_chunks.len(), OWNED_CHUNKS_CAP);
}
