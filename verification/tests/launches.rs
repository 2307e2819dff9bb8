use blue_marble_front::chunks::ChunkCache;
use blue_marble_front::error::GameError;
use blue_marble_front::grid::{tile_idx, SIM_TILES};
use blue_marble_front::launch::{
    launch_attack, launch_attack_internal, retreat_attack, Launch, LaunchAction,
};
use blue_marble_front::lobby::{create_match, generate_terrain};
use blue_marble_front::quantity::Quantity;
use blue_marble_front::tables::{
    Attack, Identity, Match, Player, PHASE_PLAYING, PHASE_SPAWN, TARGET_WILDERNESS,
};

fn q(x: f32) -> Quantity {
    Quantity { bits: x.to_bits() }
}

fn who(n: u128) -> Identity {
    Identity { hi: 0, lo: n }
}

fn flat() -> ChunkCache {
    let mut cache = ChunkCache::new(1);
    for chunk in generate_terrain(1, &vec![1; SIM_TILES as usize]).0 {
        cache.load(chunk);
    }
    cache
}

fn a_match(phase: u8) -> Match {
    let mut m = create_match(who(1), 0, "M".to_string(), 1).unwrap();
    m.id = 1;
    m.phase = phase;
    m
}

fn holder(id: u32) -> Player {
    Player {
        id,
        match_id: 1,
        identity: who(id as u128),
        name: "P".to_string(),
        color: 0,
        spawn_tile: Some(0),
        troops: q(1000.0),
        gold: 0,
        max_troops: q(2000.0),
        tiles: 1,
        alive: true,
        is_bot: false,
        traitor_until: 0,
        city_count: 0,
        city_levels: 0,
        owned_chunks: vec![1 << 32],
        next_attack_tick: 0,
    }
}

fn attack(id: u64, attacker: u32, target: u32, troops: f32) -> Attack {
    Attack {
        id,
        match_id: 1,
        attacker,
        target,
        troops: q(troops),
        retreating: false,
        border: vec![],
        to_conquer_tiles: vec![],
        to_conquer_priorities: vec![],
        source_tile: None,
        last_refresh_tick: 0,
    }
}

fn launch(target: u32) -> Launch {
    let other = holder(target);
    match launch_attack_internal(1, 7, target, Some(holder(7)), Some(&other), q(200.0), q(800.0)) {
        Ok(launch) => launch,
        Err(error) => panic!("{error:?}"),
    }
}

#[test]
fn clients_attack_as_their_player() {
    let players = vec![holder(5), holder(7)];
    assert_eq!(launch_attack(Some(&a_match(PHASE_PLAYING)), &players, who(7)), Ok(7));
    assert_eq!(launch_attack(None, &players, who(7)), Err(GameError::MatchNotFound));
    assert_eq!(
        launch_attack(Some(&a_match(PHASE_SPAWN)), &players, who(7)),
        Err(GameError::MatchNotInPlay)
    );
    assert_eq!(
        launch_attack(Some(&a_match(PHASE_PLAYING)), &players, who(9)),
        Err(GameError::NotInMatch)
    );
}

#[test]
fn launches_can_be_refused() {
    let attempt = |target: u32, attacker: Option<Player>, other: Option<&Player>, start: f32| {
        launch_attack_internal(1, 7, target, attacker, other, q(start), q(0.0)).err()
    };
    let me = || Some(holder(7));
    let other = holder(8);
    assert_eq!(attempt(7, me(), None, 9.0), Some(GameError::CannotAttackYourself));
    assert_eq!(attempt(8, None, Some(&other), 9.0), Some(GameError::AttackerNotFound));
    let mut dead = holder(7);
    dead.alive = false;
    assert_eq!(attempt(8, Some(dead), Some(&other), 9.0), Some(GameError::Eliminated));
    let mut unborn = holder(7);
    unborn.spawn_tile = None;
    assert_eq!(attempt(8, Some(unborn), Some(&other), 9.0), Some(GameError::NotYetSpawned));
    assert_eq!(attempt(8, me(), None, 9.0), Some(GameError::TargetNotFound));
    let mut far = holder(8);
    far.match_id = 2;
    assert_eq!(attempt(8, me(), Some(&far), 9.0), Some(GameError::TargetNotInMatch));
    let mut gone = holder(8);
    gone.alive = false;
    assert_eq!(attempt(8, me(), Some(&gone), 9.0), Some(GameError::TargetIsDead));
    assert_eq!(attempt(8, me(), Some(&other), 0.9), Some(GameError::NotEnoughTroops));
    assert_eq!(attempt(8, me(), Some(&other), 1.0), None);
    assert_eq!(attempt(TARGET_WILDERNESS, me(), None, 1.0), None);
}

#[test]
fn a_launch_commits_troops() {
    let launch = launch(8);
    assert_eq!(launch.attacker.troops, q(800.0));
    assert_eq!(launch.pool, q(200.0));
    assert_eq!((launch.match_id, launch.target, launch.seen), (1, 8, 0));
}

#[test]
fn a_stronger_opposing_attack_absorbs() {
    let attacks = vec![attack(1, 9, 7, 900.0), attack(2, 8, 7, 201.0)];
    let mut launch = launch(8);
    assert!(matches!(
        launch.next(&attacks, &flat(), 5),
        LaunchAction::Absorb { attack: 1 }
    ));
}

#[test]
fn weaker_opposing_attacks_are_cancelled() {
    let mut retreating = attack(4, 8, 7, 900.0);
    retreating.retreating = true;
    let attacks = vec![
        attack(1, 8, 7, 50.0),
        retreating,
        attack(2, 8, 7, 200.0),
        attack(3, 7, 8, 10.0),
    ];
    let mut launch = launch(8);
    let cache = flat();
    assert!(matches!(launch.next(&attacks, &cache, 5), LaunchAction::Cancel { attack: 0 }));
    assert!(!launch.cancelled(q(150.0)));
    assert!(matches!(launch.next(&attacks, &cache, 5), LaunchAction::Absorb { attack: 2 }));
    launch.pool = q(200.0);
    assert!(matches!(launch.next(&attacks, &cache, 5), LaunchAction::Cancel { attack: 2 }));
    assert!(launch.cancelled(q(0.0)));
    assert!(!launch.cancelled(q(1.0)));
    assert!(matches!(launch.next(&attacks, &cache, 5), LaunchAction::Merge { attack: 3 }));
}

#[test]
fn a_second_attack_merges_with_the_first() {
    let mut retreating = attack(1, 7, 8, 10.0);
    retreating.retreating = true;
    let attacks = vec![retreating, attack(2, 7, 9, 10.0), attack(3, 7, 8, 10.0)];
    let mut launch = launch(8);
    assert!(matches!(launch.next(&attacks, &flat(), 5), LaunchAction::Merge { attack: 2 }));
}

#[test]
fn a_new_attack_gets_a_border() {
    let mut cache = flat();
    cache.set_owner(10, 10, 7);
    cache.set_owner(11, 10, 8);
    let mut launch = launch(8);
    match launch.next(&Vec::new(), &cache, 5) {
        LaunchAction::Open { row } => {
            assert_eq!(row.border, vec![tile_idx(11, 10)]);
            assert_eq!(row.to_conquer_tiles, row.border);
            assert_eq!(row.to_conquer_priorities.len(), 1);
            assert_eq!((row.id, row.match_id, row.attacker, row.target), (0, 1, 7, 8));
            assert_eq!(row.troops, q(200.0));
            assert_eq!(row.last_refresh_tick, 5);
            assert!(!row.retreating);
            assert_eq!(row.source_tile, None);
        }
        _ => panic!("no attack"),
    }
}

#[test]
fn an_attack_without_border_is_refunded() {
    for (target, expected) in [
        (8, GameError::NoBorderWithTarget),
        (TARGET_WILDERNESS, GameError::NoBorderingWilderness),
    ] {
        let mut launch = launch(target);
        match launch.next(&Vec::new(), &flat(), 5) {
            LaunchAction::Refund { error } => assert_eq!(error, expected),
            _ => panic!("no refund"),
        }
    }
}

#[test]
fn retreats_mark_the_attack() {
    let players = vec![holder(7)];
    let mut attacks = vec![attack(1, 9, 8, 1.0), attack(2, 7, 8, 1.0)];
    assert_eq!(retreat_attack(&players, &mut attacks, who(7), 8), Ok(1));
    assert!(attacks[1].retreating && !attacks[0].retreating);
    let before = attacks.clone();
    assert_eq!(
        retreat_attack(&players, &mut attacks, who(7), 8),
        Err(GameError::NoActiveAttack)
    );
    assert_eq!(
        retreat_attack(&players, &mut attacks, who(6), 8),
        Err(GameError::NotInMatch)
    );
    assert_eq!(attacks, before);
}

#[test]
fn two_players_never_attack_each_other_after_a_launch() {
    let mut cache = flat();
    cache.set_owner(10, 10, 7);
    cache.set_owner(11, 10, 8);
    for strength in [50.0f32, 120.0, 300.0] {
        let attacks = vec![
            attack(1, 8, 7, strength),
            attack(2, 9, 7, 10.0),
            attack(3, 8, 7, 60.0),
        ];
        let mut rows = attacks.clone();
        let mut launch = launch(8);
        loop {
            match launch.next(&attacks, &cache, 5) {
                LaunchAction::Cancel { attack } => {
                    let left = f32::from_bits(launch.pool.bits)
                        - f32::from_bits(attacks[attack].troops.bits);
                    rows.retain(|row| row.id != attacks[attack].id);
                    if launch.cancelled(q(left)) {
                        break;
                    }
                }
                LaunchAction::Open { row } => {
                    rows.push(row);
                    break;
                }
                _ => break,
            }
        }
        for a in &rows {
            for b in &rows {
                assert!(!(a.attacker == b.target && a.target == b.attacker), "{strength}");
            }
        }
        assert!(rows.iter().any(|row| row.id == 2));
    }
}
