use blue_marble_front::attack::{
    process_attack, refund_percent, AttackAction, AttackOpening, AttackRun, CombatOutcome,
};
use blue_marble_front::chunks::ChunkCache;
use blue_marble_front::front::has_attacker_neighbor;
use blue_marble_front::grid::{tile_idx, SIM_TILES, SIM_W};
use blue_marble_front::lobby::generate_terrain;
use blue_marble_front::quantity::{zero, Quantity};
use blue_marble_front::rng::rng_seed;
use blue_marble_front::tables::{Attack, Identity, Player, TARGET_WILDERNESS};

fn q(x: f32) -> Quantity {
    Quantity { bits: x.to_bits() }
}

fn flat() -> ChunkCache {
    let mut cache = ChunkCache::new(1);
    for chunk in generate_terrain(1, &vec![1; SIM_TILES as usize]).0 {
        cache.load(chunk);
    }
    cache
}

fn holder(id: u32, tiles: u32, chunks: Vec<u64>) -> Player {
    Player {
        id,
        match_id: 1,
        identity: Identity { hi: 0, lo: id as u128 },
        name: "P".to_string(),
        color: 0,
        spawn_tile: Some(0),
        troops: q(1000.0),
        gold: 0,
        max_troops: q(2000.0),
        tiles,
        alive: true,
        is_bot: false,
        traitor_until: 0,
        city_count: 0,
        city_levels: 0,
        owned_chunks: chunks,
        next_attack_tick: 0,
    }
}

fn attack(target: u32) -> Attack {
    Attack {
        id: 11,
        match_id: 1,
        attacker: 7,
        target,
        troops: q(500.0),
        retreating: false,
        border: vec![],
        to_conquer_tiles: vec![],
        to_conquer_priorities: vec![],
        source_tile: None,
        last_refresh_tick: 0,
    }
}

fn run_of(opening: AttackOpening) -> (AttackRun, u32) {
    match opening {
        AttackOpening::Run { run, num_adjacent } => (run, num_adjacent),
        _ => panic!("the attack does not run"),
    }
}

fn outcome(attack_troops: f32, target_troops: f32) -> CombatOutcome {
    CombatOutcome { attack_troops: q(attack_troops), target_troops: q(target_troops) }
}

#[test]
fn retreats_are_refunded() {
    assert_eq!(refund_percent(TARGET_WILDERNESS), 100);
    assert_eq!(refund_percent(8), 75);
    for (target, share) in [(TARGET_WILDERNESS, 100), (8, 75)] {
        let mut a = attack(target);
        a.retreating = true;
        let mut dead = holder(7, 1, vec![]);
        dead.alive = false;
        match process_attack(a.clone(), Some(dead), None, 1, 5) {
            AttackOpening::Refund { attacker, percent } => {
                assert_eq!(attacker.id, 7);
                assert_eq!(percent, share);
            }
            _ => panic!("no refund"),
        }
        assert!(matches!(process_attack(a, None, None, 1, 5), AttackOpening::Drop));
    }
}

#[test]
fn attacks_without_attacker_or_target_are_dropped() {
    let mut dead = holder(7, 1, vec![]);
    dead.alive = false;
    let mut unborn = holder(7, 1, vec![]);
    unborn.spawn_tile = None;
    for attacker in [None, Some(dead.clone()), Some(unborn)] {
        assert!(matches!(
            process_attack(attack(TARGET_WILDERNESS), attacker, None, 1, 5),
            AttackOpening::Drop
        ));
    }
    let alive = || Some(holder(7, 1, vec![]));
    dead.id = 8;
    for target in [None, Some(dead)] {
        assert!(matches!(process_attack(attack(8), alive(), target, 1, 5), AttackOpening::Drop));
    }
    assert!(matches!(
        process_attack(attack(TARGET_WILDERNESS), alive(), None, 1, 5),
        AttackOpening::Run { .. }
    ));
}

#[test]
fn an_opened_attack_knows_its_width() {
    let mut a = attack(TARGET_WILDERNESS);
    a.border = vec![3, 4, 5];
    a.to_conquer_tiles = vec![3, 4];
    a.to_conquer_priorities = vec![9, 1];
    let other = Some(holder(8, 1, vec![]));
    let (mut run, width) =
        run_of(process_attack(a.clone(), Some(holder(7, 1, vec![])), other, 1, 5));
    assert_eq!(width, 3 + (rng_seed(1, 5, 11) % 5) as u32);
    assert_eq!(run.target, None);
    assert_eq!(run.tick, 5);
    assert_eq!(run.attack, a);
    assert!(run.border_set.contains(&5) && !run.border_set.contains(&6));
    assert_eq!(run.queue.pop(), Some((1, 4)));
}

#[test]
fn an_attack_stops_without_budget_or_troops() {
    let cache = flat();
    let (mut run, _) = run_of(process_attack(
        attack(TARGET_WILDERNESS),
        Some(holder(7, 1, vec![])),
        None,
        1,
        5,
    ));
    assert_eq!(run.advance(&cache, q(0.0)), AttackAction::Save);
    assert_eq!(run.advance(&cache, q(-1.0)), AttackAction::Save);
    run.attack.troops = q(0.99);
    assert_eq!(run.advance(&cache, q(1.0)), AttackAction::Delete);
    assert_eq!(run.advance(&cache, q(0.0)), AttackAction::Save);
}

#[test]
fn an_attack_with_nothing_to_conquer_goes_home() {
    let cache = flat();
    for (target, share) in [(TARGET_WILDERNESS, 100), (8, 75)] {
        let (mut run, _) = run_of(process_attack(
            attack(target),
            Some(holder(7, 1, vec![])),
            Some(holder(8, 1, vec![])),
            1,
            5,
        ));
        let last = run.advance(&cache, q(1.0));
        assert_eq!(last, AttackAction::Refund { percent: share });
        let (row, attacker, _) = run.finish(last);
        assert_eq!(row, None);
        assert_eq!(attacker.id, 7);
    }
}

#[test]
fn an_attack_conquers_wilderness() {
    let mut cache = flat();
    cache.set_owner(10, 10, 7);
    let (mut run, _) = run_of(process_attack(
        attack(TARGET_WILDERNESS),
        Some(holder(7, 1, vec![1 << 32])),
        None,
        1,
        5,
    ));
    assert_eq!(run.advance(&cache, q(3.0)), AttackAction::Again);
    assert_eq!(run.attack.border.len(), 4);
    assert_eq!(run.attack.last_refresh_tick, 5);
    let (tile, terrain) = match run.advance(&cache, q(3.0)) {
        AttackAction::Combat { tile, terrain } => (tile, terrain),
        other => panic!("{other:?}"),
    };
    assert_eq!(terrain, 1);
    assert!(run.attack.border.contains(&tile));
    assert_eq!(run.resolve(&mut cache, tile, outcome(480.0, 0.0)), AttackAction::Again);
    assert_eq!(cache.get_owner(tile % SIM_W, tile / SIM_W), Some(7));
    assert_eq!(run.attacker.tiles, 2);
    assert_eq!(run.attack.troops, q(480.0));
    assert_eq!(run.attack.border.len(), 6);
    assert!(!run.attack.border.contains(&tile) && !run.border_set.contains(&tile));
    for t in &run.attack.border {
        assert_eq!(cache.get_owner(t % SIM_W, t / SIM_W), None);
        assert!(has_attacker_neighbor(&cache, 7, t % SIM_W, t / SIM_W));
    }
    assert_eq!(run.queue.len(), 6);
    let held = (0..SIM_TILES).filter(|t| cache.get_owner(t % SIM_W, t / SIM_W) == Some(7)).count();
    assert_eq!(held, run.attacker.tiles as usize);
}

#[test]
fn a_defender_loses_tiles_and_chunks() {
    let mut cache = flat();
    cache.set_owner(31, 10, 7);
    cache.set_owner(32, 10, 8);
    cache.set_owner(100, 100, 8);
    let mut a = attack(8);
    a.to_conquer_tiles = vec![tile_idx(32, 10)];
    a.to_conquer_priorities = vec![1];
    let (mut run, _) = run_of(process_attack(
        a,
        Some(holder(7, 1, vec![1 << 32])),
        Some(holder(8, 2, vec![(1 << 32) | 1, (1 << 32) | 132])),
        1,
        5,
    ));
    assert_eq!(
        run.advance(&cache, q(3.0)),
        AttackAction::Combat { tile: tile_idx(32, 10), terrain: 1 }
    );
    assert_eq!(
        run.resolve(&mut cache, tile_idx(32, 10), outcome(0.5, -3.0)),
        AttackAction::Delete
    );
    let (row, attacker, target) = run.finish(AttackAction::Delete);
    assert_eq!(row, None);
    assert_eq!(attacker.tiles, 2);
    assert_eq!(attacker.owned_chunks, vec![1 << 32, (1 << 32) | 1]);
    let target = target.unwrap();
    assert_eq!(target.tiles, 1);
    assert_eq!(target.owned_chunks, vec![(1 << 32) | 132]);
    assert_eq!(target.troops, zero());
    assert!(!target.alive);
}

#[test]
fn a_large_defender_survives() {
    for (tiles, alive) in [(102u32, true), (101, true), (100, false)] {
        let mut cache = flat();
        cache.set_owner(31, 10, 7);
        cache.set_owner(32, 10, 8);
        let (mut run, _) = run_of(process_attack(
            attack(8),
            Some(holder(7, 1, vec![1 << 32])),
            Some(holder(8, tiles, vec![])),
            1,
            5,
        ));
        run.resolve(&mut cache, tile_idx(32, 10), outcome(400.0, 900.0));
        let target = run.target.unwrap();
        assert_eq!(target.tiles, tiles - 1);
        assert_eq!(target.alive, alive);
        assert_eq!(target.troops, q(900.0));
    }
}

#[test]
fn stale_tiles_are_skipped() {
    let mut cache = flat();
    cache.set_owner(10, 10, 7);
    cache.set_owner(11, 10, 9);
    let mut a = attack(TARGET_WILDERNESS);
    a.to_conquer_tiles = vec![tile_idx(11, 10), tile_idx(500, 500), tile_idx(9, 10)];
    a.to_conquer_priorities = vec![1, 2, 3];
    let (mut run, _) =
        run_of(process_attack(a, Some(holder(7, 1, vec![1 << 32])), None, 1, 5));
    assert_eq!(run.advance(&cache, q(3.0)), AttackAction::Again);
    assert_eq!(run.advance(&cache, q(3.0)), AttackAction::Again);
    assert_eq!(
        run.advance(&cache, q(3.0)),
        AttackAction::Combat { tile: tile_idx(9, 10), terrain: 1 }
    );
}

#[test]
fn a_lost_race_takes_no_tile() {
    let mut cache = flat();
    cache.set_owner(11, 10, 9);
    let (mut run, _) = run_of(process_attack(
        attack(TARGET_WILDERNESS),
        Some(holder(7, 1, vec![1 << 32])),
        None,
        1,
        5,
    ));
    run.resolve(&mut cache, tile_idx(11, 10), outcome(400.0, 0.0));
    assert_eq!(run.attacker.tiles, 1);
    assert_eq!(run.attack.troops, q(400.0));
    assert!(run.attack.border.is_empty());
}

#[test]
fn a_stored_attack_goes_on() {
    let mut cache = flat();
    cache.set_owner(10, 10, 7);
    let (mut run, _) = run_of(process_attack(
        attack(TARGET_WILDERNESS),
        Some(holder(7, 1, vec![1 << 32])),
        None,
        1,
        5,
    ));
    run.advance(&cache, q(3.0));
    let last = run.advance(&cache, q(0.0));
    assert_eq!(last, AttackAction::Save);
    let (row, attacker, target) = run.finish(last);
    assert_eq!(target, None);
    let row = row.unwrap();
    assert_eq!(row.to_conquer_tiles.len(), 4);
    assert_eq!(row.to_conquer_priorities.len(), 4);
    let (mut again, _) = run_of(process_attack(row.clone(), Some(attacker), None, 1, 6));
    let mut tiles: Vec<u32> = Vec::new();
    while let Some((_, tile)) = again.queue.pop() {
        tiles.push(tile);
    }
    tiles.sort();
    let mut border = row.border;
    border.sort();
    assert_eq!(tiles, border);
}

#[test]
fn the_border_stays_in_sync_through_a_step() {
    let mut cache = flat();
    cache.set_owner(100, 100, 7);
    for tx in 101..140 {
        cache.set_owner(tx, 100, 8);
    }
    let (mut run, _) = run_of(process_attack(
        attack(8),
        Some(holder(7, 1, vec![(1 << 32) | 132])),
        Some(holder(8, 39, vec![(1 << 32) | 132, (1 << 32) | 133, (1 << 32) | 134])),
        1,
        5,
    ));
    let mut captured: u32 = 0;
    while captured < 10 {
        match run.advance(&cache, q(3.0)) {
            AttackAction::Again => {}
            AttackAction::Combat { tile, .. } => {
                assert_eq!(tile, tile_idx(101 + captured, 100));
                run.resolve(&mut cache, tile, outcome(400.0, 900.0));
                captured += 1;
            }
            other => panic!("{other:?}"),
        }
        for t in &run.attack.border {
            assert_eq!(cache.get_owner(t % SIM_W, t / SIM_W), Some(8));
            assert!(has_attacker_neighbor(&cache, 7, t % SIM_W, t / SIM_W));
        }
    }
    let (row, _, _) = run.finish(AttackAction::Save);
    assert_eq!(row.unwrap().border, vec![tile_idx(111, 100)]);
}

#[test]
fn lower_priority_values_are_taken_first() {
    let mut cache = flat();
    cache.set_owner(10, 10, 7);
    let mut a = attack(TARGET_WILDERNESS);
    a.to_conquer_tiles = vec![tile_idx(11, 10), tile_idx(9, 10), tile_idx(10, 11), tile_idx(10, 9)];
    a.to_conquer_priorities = vec![30, 10, 40, 20];
    a.border = a.to_conquer_tiles.clone();
    let (mut run, _) = run_of(process_attack(a, Some(holder(7, 1, vec![1 << 32])), None, 1, 1000));
    let mut order: Vec<u32> = Vec::new();
    while order.len() < 4 {
        if let AttackAction::Combat { tile, .. } = run.advance(&cache, q(3.0)) {
            run.resolve(&mut cache, tile, outcome(400.0, 0.0));
            order.push(tile);
        }
    }
    assert_eq!(
        order,
        vec![tile_idx(9, 10), tile_idx(10, 9), tile_idx(11, 10), tile_idx(10, 11)]
    );
}

#[test]
fn a_capture_writes_only_its_own_chunk() {
    let mut setup = flat();
    setup.set_owner(10, 10, 7);
    setup.set_owner(31, 10, 7);
    let mut cache = ChunkCache::new(1);
    for chunk in setup.flush() {
        cache.load(chunk);
    }
    for chunk in generate_terrain(1, &vec![1; SIM_TILES as usize]).0 {
        cache.load(chunk);
    }
    let (mut run, _) = run_of(process_attack(
        attack(TARGET_WILDERNESS),
        Some(holder(7, 2, vec![1 << 32])),
        None,
        1,
        5,
    ));
    run.resolve(&mut cache, tile_idx(32, 10), outcome(400.0, 0.0));
    let rows = cache.flush();
    assert_eq!(rows.len(), 1);
    assert_eq!(rows[0].id, (1 << 32) | 1);
    assert_eq!(rows[0].owners[10 * 32], 7);
}

#[test]
fn counts_and_chunks_stay_right_through_a_step() {
    let mut cache = flat();
    cache.set_owner(60, 60, 7);
    for tx in 61..100 {
        cache.set_owner(tx, 60, 8);
    }
    let chunks_of = |cache: &ChunkCache, id: u32| {
        let mut chunks: Vec<u64> = (0..SIM_TILES)
            .filter(|t| cache.get_owner(t % SIM_W, t / SIM_W) == Some(id))
            .map(|t| cache.full_chunk_id(t % SIM_W, t / SIM_W).unwrap())
            .collect();
        let count = chunks.len() as u32;
        chunks.sort();
        chunks.dedup();
        (count, chunks)
    };
    let (_, mine) = chunks_of(&cache, 7);
    let (count, theirs) = chunks_of(&cache, 8);
    let (mut run, _) = run_of(process_attack(
        attack(8),
        Some(holder(7, 1, mine)),
        Some(holder(8, count, theirs)),
        1,
        5,
    ));
    let mut captured: u32 = 0;
    while captured < 30 {
        if let AttackAction::Combat { tile, .. } = run.advance(&cache, q(3.0)) {
            run.resolve(&mut cache, tile, outcome(400.0, 900.0));
            captured += 1;
        }
    }
    let (_, attacker, target) = run.finish(AttackAction::Save);
    for (player, id) in [(attacker, 7), (target.unwrap(), 8)] {
        let mut tracked_chunks = player.owned_chunks.clone();
        tracked_chunks.sort();
        assert_eq!((player.tiles, tracked_chunks), chunks_of(&cache, id));
    }
}
