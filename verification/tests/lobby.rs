use blue_marble_front::error::GameError;
use blue_marble_front::grid::SIM_TILES;
use blue_marble_front::lobby::{
    add_bot, create_match, join_match, leave_match, send_chat, set_speed, start_match, Departure,
    DEFAULT_SPEED, MAX_HUMANS, MAX_PLAYERS,
};
use blue_marble_front::quantity::{one, zero};
use blue_marble_front::tables::{
    Identity, Match, Player, PHASE_ENDED, PHASE_LOBBY, PHASE_PLAYING, PHASE_SPAWN,
};

fn who(n: u128) -> Identity {
    Identity { hi: 1, lo: n }
}

fn a_match(phase: u8) -> Match {
    let mut m = create_match(who(1), 5, "M".to_string(), 1).unwrap();
    m.id = 3;
    m.phase = phase;
    m
}

fn joined(id: u32, n: u128) -> Player {
    let mut p = join_match(Some(&a_match(PHASE_LOBBY)), &Vec::new(), 3, who(n), "P".to_string())
        .unwrap();
    p.id = id;
    p
}

#[test]
fn matches_are_created_in_the_lobby() {
    let m = create_match(who(1), 5, "M".to_string(), 2).unwrap();
    assert_eq!(
        m,
        Match {
            id: 0,
            creator: who(1),
            name: "M".to_string(),
            tick: 0,
            phase: PHASE_LOBBY,
            created_at: 5,
            winner: None,
            total_land: 0,
            difficulty: 2,
            speed_multiplier: DEFAULT_SPEED,
            sub_tick_accum: 0,
        }
    );
    assert_eq!(create_match(who(1), 5, "M".to_string(), 3), Err(GameError::InvalidDifficulty));
}

#[test]
fn players_join_with_a_colour() {
    let m = a_match(PHASE_LOBBY);
    let players = vec![joined(1, 1), joined(2, 2)];
    let p = join_match(Some(&m), &players, 3, who(3), "Eve".to_string()).unwrap();
    assert_eq!(
        p,
        Player {
            id: 0,
            match_id: 3,
            identity: who(3),
            name: "Eve".to_string(),
            color: 2,
            spawn_tile: None,
            troops: zero(),
            gold: 0,
            max_troops: zero(),
            tiles: 0,
            alive: true,
            is_bot: false,
            traitor_until: 0,
            city_count: 0,
            city_levels: 0,
            owned_chunks: Vec::new(),
            next_attack_tick: 0,
        }
    );
}

#[test]
fn bots_join_without_identity() {
    let m = a_match(PHASE_LOBBY);
    let p = add_bot(Some(&m), &vec![joined(1, 1)], 3, "Bot".to_string()).unwrap();
    assert!(p.is_bot);
    assert_eq!(p.identity, Identity { hi: 0, lo: 0 });
    assert_eq!(p.color, 1);
    assert_eq!(p.name, "Bot");
    assert!(p.alive);
}

#[test]
fn joining_can_be_refused() {
    let none: Vec<Player> = Vec::new();
    let mut full: Vec<Player> = (0..MAX_PLAYERS).map(|i| joined(i + 1, i as u128)).collect();
    for p in full.iter_mut().skip(5) {
        p.is_bot = true;
    }
    let m = a_match(PHASE_LOBBY);
    let started = a_match(PHASE_SPAWN);
    let n = || "N".to_string();
    assert_eq!(join_match(None, &none, 3, who(1), n()), Err(GameError::MatchNotFound));
    assert_eq!(
        join_match(Some(&started), &none, 3, who(1), n()),
        Err(GameError::MatchAlreadyStarted)
    );
    assert_eq!(join_match(Some(&m), &full, 3, who(1), n()), Err(GameError::MatchFull));
    assert_eq!(add_bot(None, &none, 3, n()), Err(GameError::MatchNotFound));
    assert_eq!(add_bot(Some(&started), &none, 3, n()), Err(GameError::MatchAlreadyStarted));
    assert_eq!(add_bot(Some(&m), &full, 3, n()), Err(GameError::MatchFull));
}

#[test]
fn eight_humans_and_five_bots_fit() {
    let m = a_match(PHASE_LOBBY);
    let mut players: Vec<Player> = Vec::new();
    for i in 0..20 {
        match join_match(Some(&m), &players, 3, who(i), "P".to_string()) {
            Ok(p) => players.push(p),
            Err(error) => assert_eq!(error, GameError::MatchFull),
        }
    }
    assert_eq!(players.len(), MAX_HUMANS as usize);
    for _ in 0..20 {
        match add_bot(Some(&m), &players, 3, "B".to_string()) {
            Ok(p) => players.push(p),
            Err(error) => assert_eq!(error, GameError::MatchFull),
        }
    }
    assert_eq!(players.len(), 13);
    let colours: Vec<u8> = players.iter().map(|p| p.color).collect();
    assert_eq!(colours, (0..13).collect::<Vec<u8>>());
}

#[test]
fn bots_leave_room_for_humans() {
    let m = a_match(PHASE_LOBBY);
    let mut players: Vec<Player> = Vec::new();
    for _ in 0..12 {
        players.push(add_bot(Some(&m), &players, 3, "B".to_string()).unwrap());
    }
    let p = join_match(Some(&m), &players, 3, who(1), "P".to_string()).unwrap();
    assert_eq!(p.color, 12);
    players.push(p);
    assert_eq!(
        join_match(Some(&m), &players, 3, who(2), "P".to_string()),
        Err(GameError::MatchFull)
    );
}

#[test]
fn leaving_the_lobby_removes_the_row() {
    let mut players = vec![joined(1, 1), joined(2, 2), joined(3, 3)];
    let r = leave_match(Some(&a_match(PHASE_LOBBY)), &mut players, who(2));
    assert_eq!(r, Ok(Departure::Removed { id: 2 }));
    assert_eq!(players.iter().map(|p| p.id).collect::<Vec<u32>>(), vec![1, 3]);
}

#[test]
fn leaving_a_running_match_kills() {
    let mut players = vec![joined(1, 1), joined(2, 2)];
    players[1].troops = one();
    players[1].tiles = 400;
    let r = leave_match(Some(&a_match(PHASE_PLAYING)), &mut players, who(2));
    assert_eq!(r, Ok(Departure::Eliminated { place: 1 }));
    assert!(!players[1].alive);
    assert_eq!(players[1].troops, zero());
    assert_eq!(players[1].tiles, 400);
    assert!(players[0].alive);
}

#[test]
fn leaving_can_be_refused() {
    let mut players = vec![joined(1, 1)];
    players[0].is_bot = true;
    let before = players.clone();
    assert_eq!(leave_match(None, &mut players, who(1)), Err(GameError::MatchNotFound));
    assert_eq!(
        leave_match(Some(&a_match(PHASE_LOBBY)), &mut players, who(1)),
        Err(GameError::NotInMatch)
    );
    assert_eq!(players, before);
}

#[test]
fn players_change_the_speed() {
    let players = vec![joined(1, 1)];
    for speed in [1u8, 2, 4, 8, 16] {
        let mut m = a_match(PHASE_PLAYING);
        m.sub_tick_accum = 3;
        let after = set_speed(Some(m.clone()), &players, who(1), speed).unwrap();
        m.speed_multiplier = speed;
        m.sub_tick_accum = 0;
        assert_eq!(after, m);
    }
    for speed in [0u8, 3, 5, 6, 7, 9, 15, 17, 255] {
        assert_eq!(
            set_speed(None, &players, who(1), speed),
            Err(GameError::InvalidSpeed)
        );
    }
    assert_eq!(set_speed(None, &players, who(1), 4), Err(GameError::MatchNotFound));
    assert_eq!(
        set_speed(Some(a_match(PHASE_PLAYING)), &players, who(2), 4),
        Err(GameError::NotInMatch)
    );
}

#[test]
fn matches_start_once() {
    let mut terrain: Vec<u8> = vec![1; SIM_TILES as usize];
    terrain[0] = 0;
    let (m, chunks) = start_match(Some(a_match(PHASE_LOBBY)), &terrain).unwrap();
    assert_eq!(m.phase, PHASE_SPAWN);
    assert_eq!(m.total_land, SIM_TILES - 1);
    assert_eq!(chunks.len(), 946);
    assert_eq!(chunks[7].id, (3 << 32) | 7);
    assert_eq!(start_match(Some(m), &terrain).err(), Some(GameError::AlreadyStarted));
    assert_eq!(
        start_match(Some(a_match(PHASE_ENDED)), &terrain).err(),
        Some(GameError::AlreadyStarted)
    );
    assert_eq!(start_match(None, &terrain).err(), Some(GameError::MatchNotFound));
}

#[test]
fn players_talk() {
    let mut players = vec![joined(1, 1), joined(2, 2)];
    let line = send_chat(&players, 3, who(2), 1_234_567, "hi".to_string()).unwrap();
    assert_eq!(line.from, 2);
    assert_eq!(line.match_id, 3);
    assert_eq!(line.text, "hi");
    assert_eq!(line.ts, 1234);
    players[1].is_bot = true;
    assert!(send_chat(&players, 3, who(2), 0, "hi".to_string()).is_ok());
    let early = send_chat(&players, 3, who(1), -1, "hi".to_string()).unwrap();
    assert_eq!(early.ts, u64::MAX / 1000);
    assert_eq!(
        send_chat(&players, 3, who(9), 0, "hi".to_string()),
        Err(GameError::NotInMatch)
    );
}

#[test]
fn refusals_have_texts() {
    assert_eq!(
        GameError::InvalidDifficulty.message(),
        "difficulty must be 0 (Easy), 1 (Normal), or 2 (Hard)"
    );
    assert_eq!(GameError::InvalidSpeed.message(), "speed_multiplier must be 1, 2, 4, 8, or 16");
    assert_eq!(GameError::TooClose.message(), "Too close to another player");
    assert_eq!(GameError::MustBuildOnOwnTile.message(), "Must build on your own tile");
    assert_eq!(GameError::CityAlreadyExists.message(), "City already exists here");
    assert_eq!(GameError::MatchAlreadyStarted.message(), "Match already started");
    assert_eq!(GameError::AlreadyStarted.message(), "Already started");
}
