use blue_marble_front::chunks::ChunkCache;
use blue_marble_front::front::{
    compute_tile_priority, enqueue_tile_neighbors, has_attacker_neighbor, is_capturable,
    seed_attack_border,
};
use blue_marble_front::grid::{tile_idx, SIM_TILES, SIM_W};
use blue_marble_front::lobby::generate_terrain;
use blue_marble_front::quantity::zero;
use blue_marble_front::queue::{ConquestQueue, ATTACK_HEAP_CAP};
use blue_marble_front::rng::rng_seed;
use blue_marble_front::tables::{Identity, Player, TARGET_WILDERNESS};

fn cache_of(terrain: &[u8]) -> ChunkCache {
    let mut cache = ChunkCache::new(1);
    for chunk in generate_terrain(1, terrain).0 {
        cache.load(chunk);
    }
    cache
}

fn flat() -> ChunkCache {
    cache_of(&vec![1; SIM_TILES as usize])
}

fn holder(id: u32, chunks: Vec<u64>) -> Player {
    Player {
        id,
        match_id: 1,
        identity: Identity { hi: 0, lo: 0 },
        name: "P".to_string(),
        color: 0,
        spawn_tile: Some(0),
        troops: zero(),
        gold: 0,
        max_troops: zero(),
        tiles: 1,
        alive: true,
        is_bot: false,
        traitor_until: 0,
        city_count: 0,
        city_levels: 0,
        owned_chunks: chunks,
        next_attack_tick: 0,
    }
}

/// The priority formula in floating point.
fn float_priority(tx: u32, ty: u32, tick: u64, held: u32, terrain: u8) -> i32 {
    let mag: [f32; 4] = [0.0, 1.0, 1.5, 2.0];
    let base = ((rng_seed(tx as u64, ty as u64, tick) % 7) as f32) + 10.0;
    let sum = base * (1.0 - 0.5 * held as f32 + mag[terrain.min(3) as usize] / 2.0) + tick as f32;
    sum as i32
}

#[test]
fn targets_match_owners() {
    assert!(is_capturable(TARGET_WILDERNESS, None));
    assert!(!is_capturable(TARGET_WILDERNESS, Some(3)));
    assert!(!is_capturable(TARGET_WILDERNESS, Some(0)));
    assert!(is_capturable(3, Some(3)));
    assert!(!is_capturable(3, Some(4)));
    assert!(!is_capturable(3, None));
}

#[test]
fn neighbours_are_four() {
    let mut cache = flat();
    cache.set_owner(10, 10, 7);
    for (tx, ty) in [(11, 10), (9, 10), (10, 11), (10, 9)] {
        assert!(has_attacker_neighbor(&cache, 7, tx, ty));
        assert!(!has_attacker_neighbor(&cache, 8, tx, ty));
    }
    for (tx, ty) in [(10, 10), (11, 11), (12, 10), (0, 0), (1349, 674)] {
        assert!(!has_attacker_neighbor(&cache, 7, tx, ty));
    }
}

#[test]
fn priorities_agree_with_single_precision() {
    let ticks: [u64; 14] = [
        0,
        1,
        7,
        100,
        4_194_303,
        4_194_304,
        4_194_305,
        16_777_217,
        50_331_650,
        2_147_483_520,
        2_147_483_647,
        4_294_967_296,
        1 << 40,
        u64::MAX,
    ];
    for terrain in [0u8, 1, 2, 3, 9] {
        let mut map: Vec<u8> = vec![1; SIM_TILES as usize];
        map[(20 * SIM_W + 20) as usize] = terrain;
        for held in 0..=4u32 {
            let mut cache = cache_of(&map);
            for (tx, ty) in [(21, 20), (19, 20), (20, 21), (20, 19)].iter().take(held as usize) {
                cache.set_owner(*tx, *ty, 7);
            }
            for tick in ticks {
                assert_eq!(
                    compute_tile_priority(&cache, 7, 20, 20, tick),
                    float_priority(20, 20, tick, held, terrain),
                    "terrain {terrain} held {held} tick {tick}"
                );
            }
        }
    }
}

#[test]
fn surrounded_plains_come_first_and_mountains_last() {
    let mut map: Vec<u8> = vec![1; SIM_TILES as usize];
    let at = |cache: &ChunkCache| compute_tile_priority(cache, 7, 20, 20, 50);
    let mut last = i32::MIN;
    for terrain in [1u8, 2, 3] {
        map[(20 * SIM_W + 20) as usize] = terrain;
        let cache = cache_of(&map);
        assert!(at(&cache) >= last);
        last = at(&cache);
    }
    let mut cache = flat();
    let alone = at(&cache);
    cache.set_owner(21, 20, 7);
    let beside = at(&cache);
    cache.set_owner(19, 20, 7);
    assert!(at(&cache) < beside && beside < alone);
}

#[test]
fn neighbours_to_conquer_are_listed_in_order() {
    let mut cache = flat();
    cache.set_owner(10, 10, 7);
    cache.set_owner(9, 10, 8);
    let found = enqueue_tile_neighbors(&cache, 7, TARGET_WILDERNESS, 10, 10, 5);
    let expected: Vec<(u32, i32)> = [(11, 10), (10, 11), (10, 9)]
        .iter()
        .map(|(x, y)| (tile_idx(*x, *y), float_priority(*x, *y, 5, 1, 1)))
        .collect();
    assert_eq!(found, expected);
    let found = enqueue_tile_neighbors(&cache, 7, 8, 10, 10, 5);
    assert_eq!(found, vec![(tile_idx(9, 10), float_priority(9, 10, 5, 1, 1))]);
    let corner = enqueue_tile_neighbors(&cache, 7, TARGET_WILDERNESS, 0, 0, 5);
    assert_eq!(corner.iter().map(|e| e.0).collect::<Vec<u32>>(), vec![1, SIM_W]);
}

#[test]
fn borders_are_gathered_from_tracked_chunks() {
    let mut map: Vec<u8> = vec![1; SIM_TILES as usize];
    map[(11 * SIM_W + 10) as usize] = 0;
    let mut cache = cache_of(&map);
    cache.set_owner(10, 10, 7);
    cache.set_owner(11, 10, 7);
    cache.set_owner(500, 500, 7);
    let attacker = holder(7, vec![1 << 32, 77 << 32]);
    let (border, heap) = seed_attack_border(&cache, &attacker, TARGET_WILDERNESS, None, 5);
    let tiles: Vec<u32> = [(9, 10), (10, 9), (12, 10), (11, 11), (11, 9)]
        .iter()
        .map(|(x, y)| tile_idx(*x, *y))
        .collect();
    assert_eq!(border, tiles);
    assert_eq!(heap.iter().map(|e| e.0).collect::<Vec<u32>>(), tiles);
    for (tile, priority) in heap {
        assert_eq!(
            priority,
            compute_tile_priority(&cache, 7, tile % SIM_W, tile / SIM_W, 5)
        );
    }
    let nothing = seed_attack_border(&cache, &holder(7, vec![]), TARGET_WILDERNESS, None, 5);
    assert_eq!(nothing, (vec![], vec![]));
    let nobody = seed_attack_border(&cache, &attacker, 9, None, 5);
    assert_eq!(nobody, (vec![], vec![]));
}

#[test]
fn borders_cross_chunks() {
    let mut cache = flat();
    cache.set_owner(31, 31, 7);
    cache.set_owner(32, 31, 8);
    cache.set_owner(31, 32, 8);
    let (border, _) = seed_attack_border(&cache, &holder(7, vec![1 << 32]), 8, None, 5);
    assert_eq!(border, vec![tile_idx(32, 31), tile_idx(31, 32)]);
}

#[test]
fn borders_are_cut_at_the_limit() {
    let mut cache = flat();
    let mut chunks: Vec<u64> = Vec::new();
    for cy in 0..12u32 {
        for cx in 0..12u32 {
            chunks.push((1 << 32) | (cy * 43 + cx) as u64);
            for ly in 0..32 {
                for lx in 0..32 {
                    if (lx + ly) % 2 == 0 {
                        cache.set_owner(cx * 32 + lx, cy * 32 + ly, 7);
                    }
                }
            }
        }
    }
    let (border, heap) = seed_attack_border(&cache, &holder(7, chunks), 0, None, 5);
    assert_eq!(border.len(), ATTACK_HEAP_CAP);
    assert_eq!(heap.len(), ATTACK_HEAP_CAP);
    let mut sorted = border.clone();
    sorted.sort();
    sorted.dedup();
    assert_eq!(sorted.len(), ATTACK_HEAP_CAP);
}

#[test]
fn queues_give_the_lowest_first() {
    let mut queue = ConquestQueue::new();
    let mut entries: Vec<(i32, u32)> = Vec::new();
    let mut seed: u64 = 12345;
    for _ in 0..500 {
        seed = seed.wrapping_mul(6364136223846793005).wrapping_add(1442695040888963407);
        let entry = ((seed >> 40) as i32 % 50 - 25, (seed >> 20) as u32 % 40);
        entries.push(entry);
        queue.push(entry.0, entry.1);
    }
    assert_eq!(queue.len(), 500);
    entries.sort();
    for entry in entries {
        assert_eq!(queue.pop(), Some(entry));
    }
    assert_eq!(queue.pop(), None);
}

#[test]
fn queues_are_stored_and_restored() {
    let tiles: Vec<u32> = vec![5, 6, 7, 8];
    let priorities: Vec<i32> = vec![3, -2, 9];
    let mut queue = ConquestQueue::restore(&tiles, &priorities);
    let (stored_tiles, stored_priorities) = queue.store();
    let mut again = ConquestQueue::restore(&stored_tiles, &stored_priorities);
    let expected = [(-2, 6), (0, 8), (3, 5), (9, 7)];
    for entry in expected {
        assert_eq!(queue.pop(), Some(entry));
        assert_eq!(again.pop(), Some(entry));
    }
    assert_eq!(queue.pop(), None);
    let many: Vec<u32> = (0..5000).collect();
    let (tiles, priorities) = ConquestQueue::restore(&many, &Vec::new()).store();
    assert_eq!(tiles.len(), ATTACK_HEAP_CAP);
    assert_eq!(priorities, vec![0; ATTACK_HEAP_CAP]);
}
