use blue_marble_front::economy::{
    build_city, check_site, city_cost, regen_player, GOLD_LIMIT,
};
use blue_marble_front::error::GameError;
use blue_marble_front::grid::{SIM_TILES, SIM_W};
use blue_marble_front::lobby::{create_match, generate_terrain, join_match};
use blue_marble_front::quantity::{zero, Quantity};
use blue_marble_front::tables::{City, Identity, Match, Player, TileChunk, PHASE_PLAYING};

fn q(x: f32) -> Quantity {
    Quantity { bits: x.to_bits() }
}

fn who(n: u128) -> Identity {
    Identity { hi: 1, lo: n }
}

fn playing() -> Match {
    let mut m = create_match(who(1), 0, "M".to_string(), 1).unwrap();
    m.id = 3;
    m.phase = PHASE_PLAYING;
    m
}

fn citizen() -> Player {
    let mut m = playing();
    m.phase = 0;
    let mut p = join_match(Some(&m), &Vec::new(), 3, who(1), "P".to_string()).unwrap();
    p.id = 7;
    p.spawn_tile = Some(0);
    p.tiles = 500;
    p.gold = 130_000;
    p
}

fn own_row() -> TileChunk {
    let mut row = generate_terrain(3, &vec![1; SIM_TILES as usize]).0.swap_remove(0);
    row.owners[0] = 7;
    row.owners[1] = 8;
    row.owners[32] = 7;
    row
}

#[test]
fn city_prices_double_up_to_a_limit() {
    let prices: Vec<u32> = (0..32).map(city_cost).collect();
    assert_eq!(&prices[..5], &[125_000, 250_000, 500_000, 1_000_000, 1_000_000]);
    assert!(prices[5..].iter().all(|p| *p == 1_000_000));
}

#[test]
fn a_city_is_paid_for() {
    let mut players = vec![citizen()];
    let row = own_row();
    let (place, city) = build_city(
        Some(&playing()),
        &mut players,
        &Vec::new(),
        Some(&row),
        who(1),
        SIM_W,
        q(9.0),
    )
    .unwrap();
    assert_eq!(place, 0);
    assert_eq!(
        city,
        City {
            id: 0,
            match_id: 3,
            owner_id: 7,
            tile: SIM_W,
            level: 1,
            under_construction: false,
            build_progress: 0,
        }
    );
    assert_eq!(players[0].gold, 5_000);
    assert_eq!(players[0].city_count, 1);
    assert_eq!(players[0].city_levels, 1);
    assert_eq!(players[0].max_troops, q(9.0));
}

#[test]
fn cities_can_be_refused() {
    let row = own_row();
    let there = City {
        id: 1,
        match_id: 3,
        owner_id: 9,
        tile: 0,
        level: 1,
        under_construction: false,
        build_progress: 0,
    };
    let try_build = |m: Option<&Match>, p: Player, cities: Vec<City>, row, tile| {
        let mut players = vec![p];
        let before = players.clone();
        let r = build_city(m, &mut players, &cities, row, who(1), tile, zero());
        assert_eq!(players, before);
        r.err()
    };
    let m = playing();
    let mut lobby = playing();
    lobby.phase = 1;
    assert_eq!(
        try_build(None, citizen(), vec![], Some(&row), 0),
        Some(GameError::MatchNotFound)
    );
    assert_eq!(
        try_build(Some(&lobby), citizen(), vec![], Some(&row), 0),
        Some(GameError::MatchNotInPlay)
    );
    let mut stranger = citizen();
    stranger.identity = who(2);
    assert_eq!(
        try_build(Some(&m), stranger, vec![], Some(&row), 0),
        Some(GameError::NotInMatch)
    );
    let mut dead = citizen();
    dead.alive = false;
    assert_eq!(try_build(Some(&m), dead, vec![], Some(&row), 0), Some(GameError::Eliminated));
    for (row, tile) in [(Some(&row), 1), (Some(&row), 2), (None, 0), (Some(&row), SIM_TILES)] {
        assert_eq!(
            try_build(Some(&m), citizen(), vec![], row, tile),
            Some(GameError::MustBuildOnOwnTile)
        );
    }
    assert_eq!(
        try_build(Some(&m), citizen(), vec![there], Some(&row), 0),
        Some(GameError::CityAlreadyExists)
    );
    let mut poor = citizen();
    poor.gold = 124_999;
    assert_eq!(try_build(Some(&m), poor, vec![], Some(&row), 0), Some(GameError::NotEnoughGold));
    let mut second = citizen();
    second.city_count = 1;
    assert_eq!(
        try_build(Some(&m), second, vec![], Some(&row), 0),
        Some(GameError::NotEnoughGold)
    );
}

#[test]
fn many_cities_do_not_hide_a_refusal() {
    let row = own_row();
    let mut rich = citizen();
    rich.city_count = 32;
    rich.alive = false;
    let mut players = vec![rich.clone()];
    let m = playing();
    let cities: Vec<City> = Vec::new();
    assert_eq!(
        check_site(Some(&m), &players, &cities, Some(&row), who(1), 0),
        Err(GameError::Eliminated)
    );
    assert_eq!(
        build_city(Some(&m), &mut players, &cities, Some(&row), who(1), 0, zero()),
        Err(GameError::Eliminated)
    );
    players[0].alive = true;
    assert_eq!(
        build_city(Some(&m), &mut players, &cities, Some(&row), who(1), 1, zero()),
        Err(GameError::MustBuildOnOwnTile)
    );
    assert_eq!(check_site(Some(&m), &players, &cities, Some(&row), who(1), 0), Ok((3, 0)));
}

#[test]
fn gold_is_earned_at_a_hundred_a_second() {
    let mut human = citizen();
    human.gold = 0;
    let mut bot = human.clone();
    bot.is_bot = true;
    for _ in 0..10 {
        assert!(regen_player(&mut human, q(100.0), q(50.0)));
        assert!(regen_player(&mut bot, q(100.0), q(50.0)));
    }
    assert_eq!(human.gold, 100);
    assert_eq!(bot.gold, 50);
}

#[test]
fn gold_rounds_as_single_precision_does() {
    for is_bot in [false, true] {
        let mut p = citizen();
        p.is_bot = is_bot;
        let mut gold: f32 = 16_777_210.0;
        p.gold = gold as u32;
        for _ in 0..2000 {
            regen_player(&mut p, zero(), zero());
            gold += if is_bot { 5.0 } else { 10.0 };
            assert_eq!(p.gold as f32, gold);
            assert_eq!(p.gold, gold as u32);
        }
    }
    let mut p = citizen();
    p.gold = GOLD_LIMIT;
    regen_player(&mut p, zero(), zero());
    assert_eq!(p.gold, GOLD_LIMIT);
}

#[test]
fn paying_rounds_as_single_precision_does() {
    let row = own_row();
    for start in [16_777_216u32, 33_554_436, 268_435_456, 300_000_032] {
        let mut p = citizen();
        p.gold = start;
        let mut players = vec![p];
        build_city(
            Some(&playing()),
            &mut players,
            &Vec::new(),
            Some(&row),
            who(1),
            0,
            zero(),
        )
        .unwrap();
        assert_eq!(players[0].gold as f32, start as f32 - 125_000.0);
    }
}

#[test]
fn troops_grow_up_to_the_limit() {
    let mut p = citizen();
    assert!(regen_player(&mut p, q(100.0), q(120.0)));
    assert_eq!(p.troops, q(100.0));
    assert_eq!(p.max_troops, q(100.0));
    assert!(regen_player(&mut p, q(100.0), q(99.5)));
    assert_eq!(p.troops, q(99.5));
}

#[test]
fn the_dead_and_the_unborn_do_not_grow() {
    let mut dead = citizen();
    dead.alive = false;
    let mut unborn = citizen();
    unborn.spawn_tile = None;
    for p in [dead, unborn] {
        let mut after = p.clone();
        assert!(!regen_player(&mut after, q(100.0), q(50.0)));
        assert_eq!(after, p);
    }
}
