use blue_marble_front::chunks::ChunkCache;
use blue_marble_front::error::GameError;
use blue_marble_front::grid::{SIM_TILES, SIM_W};
use blue_marble_front::lobby::{add_bot, create_match, generate_terrain, join_match};
use blue_marble_front::quantity::Quantity;
use blue_marble_front::rng::{rng_range, rng_seed};
use blue_marble_front::spawn::{
    bot_spawn, bot_spawn_internal, bot_spawn_tile, find_bot_spawn, spawn,
};
use blue_marble_front::tables::{Identity, Match, Player, TileChunk, PHASE_PLAYING, PHASE_SPAWN};

fn q(x: f32) -> Quantity {
    Quantity { bits: x.to_bits() }
}

fn who(n: u128) -> Identity {
    Identity { hi: 1, lo: n }
}

fn a_match(phase: u8, difficulty: u8) -> Match {
    let mut m = create_match(who(1), 0, "M".to_string(), difficulty).unwrap();
    m.id = 3;
    m.phase = phase;
    m
}

fn human(id: u32, n: u128) -> Player {
    let m = a_match(0, 1);
    let mut p = join_match(Some(&m), &Vec::new(), 3, who(n), "P".to_string()).unwrap();
    p.id = id;
    p
}

fn bot(id: u32) -> Player {
    let m = a_match(0, 1);
    let mut p = add_bot(Some(&m), &Vec::new(), 3, "B".to_string()).unwrap();
    p.id = id;
    p
}

fn first_row() -> TileChunk {
    let mut terrain: Vec<u8> = vec![1; SIM_TILES as usize];
    terrain[1] = 0;
    generate_terrain(3, &terrain).0.swap_remove(0)
}

#[test]
fn a_player_spawns() {
    let mut players = vec![human(7, 1), human(8, 2)];
    let tile = 2 * SIM_W + 5;
    let done = spawn(
        Some(a_match(PHASE_SPAWN, 1)),
        &mut players,
        Some(first_row()),
        who(1),
        tile,
        q(102_000.0),
    )
    .unwrap();
    assert_eq!(done.place, 0);
    assert_eq!(done.started, None);
    assert_eq!(done.row.unwrap().owners[2 * 32 + 5], 7);
    let p = &players[0];
    assert_eq!(p.spawn_tile, Some(tile));
    assert_eq!(p.troops, q(25_000.0));
    assert_eq!(p.max_troops, q(102_000.0));
    assert_eq!((p.gold, p.tiles), (0, 1));
    assert_eq!(p.owned_chunks, vec![3 << 32]);
    assert_eq!(players[1], human(8, 2));
}

#[test]
fn the_last_spawn_starts_the_match() {
    let mut other = human(8, 2);
    other.spawn_tile = Some(100 * SIM_W);
    let mut players = vec![human(7, 1), other];
    let m = a_match(PHASE_SPAWN, 1);
    let done =
        spawn(Some(m.clone()), &mut players, Some(first_row()), who(1), 0, q(1.0)).unwrap();
    let mut expected = m;
    expected.phase = PHASE_PLAYING;
    assert_eq!(done.started, Some(expected));
}

#[test]
fn difficulty_sets_the_start() {
    for (difficulty, factor) in [(0u8, 1.4f32), (1, 1.0), (2, 0.7)] {
        let mut players = vec![human(7, 1)];
        let row = Some(first_row());
        spawn(Some(a_match(PHASE_SPAWN, difficulty)), &mut players, row, who(1), 0, q(1.0))
            .unwrap();
        assert_eq!(players[0].troops, q(25_000.0 * factor));
    }
}

#[test]
fn spawning_can_be_refused() {
    let attempt = |m: Option<Match>, p: Vec<Player>, row, who, tile| {
        let mut players = p.clone();
        let r = spawn(m, &mut players, row, who, tile, q(1.0));
        assert_eq!(players, p);
        r.err()
    };
    let row = || Some(first_row());
    let m = || Some(a_match(PHASE_SPAWN, 1));
    assert_eq!(
        attempt(None, vec![human(7, 1)], row(), who(1), 0),
        Some(GameError::MatchNotFound)
    );
    for phase in [0u8, 3] {
        assert_eq!(
            attempt(Some(a_match(phase, 1)), vec![human(7, 1)], row(), who(1), 0),
            Some(GameError::CannotSpawnNow)
        );
    }
    assert_eq!(
        attempt(m(), vec![human(7, 1)], row(), who(2), 0),
        Some(GameError::NotInMatch)
    );
    let mut there = human(7, 1);
    there.spawn_tile = Some(5);
    assert_eq!(attempt(m(), vec![there], row(), who(1), 0), Some(GameError::AlreadySpawned));
    for (row, tile) in [(row(), 1), (None, 0), (row(), SIM_TILES)] {
        assert_eq!(
            attempt(m(), vec![human(7, 1)], row, who(1), tile),
            Some(GameError::MustSpawnOnLand)
        );
    }
    let mut near = human(8, 2);
    near.spawn_tile = Some(29);
    assert_eq!(
        attempt(m(), vec![human(7, 1), near], row(), who(1), 0),
        Some(GameError::TooClose)
    );
}

#[test]
fn thirty_tiles_are_far_enough() {
    let mut other = human(8, 2);
    other.spawn_tile = Some(30);
    let mut players = vec![human(7, 1), other];
    assert!(spawn(Some(a_match(PHASE_SPAWN, 1)), &mut players, Some(first_row()), who(1), 0, q(1.0))
        .is_ok());
}

#[test]
fn claimed_land_is_refused() {
    let mut row = first_row();
    row.owners[0] = 9;
    for phase in [PHASE_SPAWN, PHASE_PLAYING] {
        let mut players = vec![human(7, 1), human(9, 2)];
        let before = players.clone();
        let m = Some(a_match(phase, 1));
        let r = spawn(m.clone(), &mut players, Some(row.clone()), who(1), 0, q(1.0));
        assert_eq!(r.err(), Some(GameError::TileClaimed));
        assert_eq!(players, before);
        assert!(spawn(m, &mut players, Some(row.clone()), who(1), 2, q(1.0)).is_ok());
    }
    assert_eq!(
        bot_spawn(Some(bot(8)), 3, Some(row.clone()), 0, q(1.0)).err(),
        Some(GameError::TileClaimed)
    );
    assert_eq!(
        bot_spawn_internal(Some(bot(8)), 3, Some(row), 0, q(1.0)).err(),
        Some(GameError::TileClaimed)
    );
    assert_eq!(GameError::TileClaimed.message(), "Must spawn on unclaimed land");
}

#[test]
fn a_spawn_tile_of_another_is_too_close() {
    let mut row = first_row();
    row.owners[0] = 9;
    let mut other = human(9, 2);
    other.spawn_tile = Some(0);
    let mut players = vec![human(7, 1), other];
    let r = spawn(Some(a_match(PHASE_SPAWN, 1)), &mut players, Some(row), who(1), 0, q(1.0));
    assert_eq!(r.err(), Some(GameError::TooClose));
}

#[test]
fn a_bot_is_placed() {
    let done = bot_spawn(Some(bot(9)), 3, Some(first_row()), 3, q(34_000.0)).unwrap();
    assert_eq!(done.player.spawn_tile, Some(3));
    assert_eq!(done.player.troops, q(10_000.0));
    assert_eq!(done.player.max_troops, q(34_000.0));
    assert_eq!(done.player.tiles, 1);
    assert_eq!(done.player.owned_chunks, vec![3 << 32]);
    assert_eq!(done.row.unwrap().owners[3], 9);
    let followed = bot_spawn_internal(Some(bot(9)), 3, Some(first_row()), 3, q(1.0)).unwrap();
    assert_eq!(followed.player.owned_chunks, vec![3 << 32]);
    assert_eq!(followed.row.unwrap().owners[3], 9);
}

#[test]
fn placing_a_bot_can_be_refused() {
    let cases: Vec<(Option<Player>, u64, Option<TileChunk>, u32, GameError)> = vec![
        (None, 3, Some(first_row()), 3, GameError::PlayerNotFound),
        (Some(bot(9)), 4, Some(first_row()), 3, GameError::InvalidBot),
        (Some(human(9, 1)), 3, Some(first_row()), 3, GameError::InvalidBot),
        (Some(bot(9)), 3, Some(first_row()), 1, GameError::MustSpawnOnLand),
        (Some(bot(9)), 3, None, 3, GameError::MustSpawnOnLand),
    ];
    for (player, match_id, row, tile, error) in cases {
        assert_eq!(
            bot_spawn(player.clone(), match_id, row.clone(), tile, q(1.0)).err(),
            Some(error)
        );
        assert_eq!(
            bot_spawn_internal(player, match_id, row, tile, q(1.0)).err(),
            Some(error)
        );
    }
    let mut there = bot(9);
    there.spawn_tile = Some(7);
    assert_eq!(
        bot_spawn(Some(there), 3, Some(first_row()), 3, q(1.0)).err(),
        Some(GameError::AlreadySpawned)
    );
}

#[test]
fn bots_find_free_land() {
    let mut cache = ChunkCache::new(3);
    for chunk in generate_terrain(3, &vec![1; SIM_TILES as usize]).0 {
        cache.load(chunk);
    }
    let seed = rng_seed(3, 1, 9);
    let (next, tx) = rng_range(seed, 1350);
    let (_, ty) = rng_range(next, 675);
    let none: Vec<Player> = vec![human(7, 1)];
    assert_eq!(find_bot_spawn(&cache, &none, seed), Some((tx, ty)));
    let mut near = human(7, 1);
    near.spawn_tile = Some(ty * SIM_W + tx);
    let players = vec![near];
    let (bx, by) = find_bot_spawn(&cache, &players, seed).unwrap();
    let (dx, dy) = (bx as i64 - tx as i64, by as i64 - ty as i64);
    assert!(dx * dx + dy * dy >= 900);
}

#[test]
fn only_unplaced_bots_look_for_land() {
    let mut cache = ChunkCache::new(3);
    for chunk in generate_terrain(3, &vec![1; SIM_TILES as usize]).0 {
        cache.load(chunk);
    }
    let players = vec![human(7, 1), bot(9)];
    let (tx, ty) = find_bot_spawn(&cache, &players, rng_seed(3, 1, 9)).unwrap();
    assert_eq!(
        bot_spawn_tile(&cache, &players[1], &players, 3, 1),
        Some(ty * SIM_W + tx)
    );
    assert_eq!(bot_spawn_tile(&cache, &players[0], &players, 3, 1), None);
    let mut there = bot(9);
    there.spawn_tile = Some(0);
    let mut dead = bot(9);
    dead.alive = false;
    for b in [there, dead] {
        assert_eq!(bot_spawn_tile(&cache, &b, &players, 3, 1), None);
    }
}

#[test]
fn bots_find_no_land_in_the_ocean() {
    let mut cache = ChunkCache::new(3);
    for chunk in generate_terrain(3, &vec![0; SIM_TILES as usize]).0 {
        cache.load(chunk);
    }
    assert_eq!(find_bot_spawn(&cache, &Vec::new(), 1), None);
}
