use blue_marble_front::bots::{bot_ai_tick, pick_bot_target, BotMove};
use blue_marble_front::chunks::ChunkCache;
use blue_marble_front::grid::SIM_TILES;
use blue_marble_front::lobby::generate_terrain;
use blue_marble_front::quantity::one;
use blue_marble_front::rng::rng_seed;
use blue_marble_front::tables::{Attack, Identity, Player, TARGET_WILDERNESS};

fn cache_of(code: u8) -> ChunkCache {
    let mut cache = ChunkCache::new(1);
    for chunk in generate_terrain(1, &vec![code; SIM_TILES as usize]).0 {
        cache.load(chunk);
    }
    cache
}

fn bot(id: u32) -> Player {
    Player {
        id,
        match_id: 1,
        identity: Identity { hi: 0, lo: 0 },
        name: "B".to_string(),
        color: 0,
        spawn_tile: Some(0),
        troops: one(),
        gold: 0,
        max_troops: one(),
        tiles: 1,
        alive: true,
        is_bot: true,
        traitor_until: 0,
        city_count: 0,
        city_levels: 0,
        owned_chunks: vec![1 << 32],
        next_attack_tick: 0,
    }
}

fn attack(attacker: u32, retreating: bool) -> Attack {
    Attack {
        id: 1,
        match_id: 1,
        attacker,
        target: 0,
        troops: one(),
        retreating,
        border: vec![],
        to_conquer_tiles: vec![],
        to_conquer_priorities: vec![],
        source_tile: None,
        last_refresh_tick: 0,
    }
}

#[test]
fn a_lone_bot_goes_into_the_wild() {
    let mut cache = cache_of(1);
    cache.set_owner(10, 10, 7);
    assert_eq!(pick_bot_target(&cache, &bot(7)), Some(TARGET_WILDERNESS));
}

#[test]
fn a_bot_without_border_has_no_target() {
    let mut cache = cache_of(1);
    assert_eq!(pick_bot_target(&cache, &bot(7)), None);
    cache.set_owner(500, 500, 7);
    assert_eq!(pick_bot_target(&cache, &bot(7)), None);
    let mut sea = cache_of(0);
    sea.set_owner(10, 10, 7);
    assert_eq!(pick_bot_target(&sea, &bot(7)), None);
}

#[test]
fn a_bot_picks_among_its_neighbours() {
    let mut cache = cache_of(1);
    cache.set_owner(10, 10, 7);
    cache.set_owner(11, 10, 20);
    cache.set_owner(9, 10, 21);
    cache.set_owner(10, 11, 22);
    let options = [20u32, 21, 22, TARGET_WILDERNESS];
    let seed = rng_seed(1, 0, 7) as usize;
    assert_eq!(pick_bot_target(&cache, &bot(7)), Some(options[seed % 4]));
    cache.set_owner(10, 9, 20);
    assert_eq!(pick_bot_target(&cache, &bot(7)), Some(options[seed % 3]));
}

#[test]
fn a_bot_stops_looking_once_it_has_seen_enough() {
    let mut cache = cache_of(1);
    for tx in 0..8 {
        cache.set_owner(tx, 1, 7);
        cache.set_owner(tx, 0, 20 + tx);
    }
    let seed = rng_seed(1, 0, 7) as usize;
    let options = [20u32, 21, 22, 23, TARGET_WILDERNESS];
    assert_eq!(pick_bot_target(&cache, &bot(7)), Some(options[seed % 5]));
}

#[test]
fn bots_take_turns() {
    let mut cache = cache_of(1);
    cache.set_owner(10, 10, 7);
    let expected = BotMove::Turn {
        target: Some(TARGET_WILDERNESS),
        next_attack_tick: 100 + 40 + rng_seed(1, 100, 7) % 40,
    };
    assert_eq!(bot_ai_tick(&cache, &bot(7), &vec![], 1, 100), expected);
    let others = vec![attack(8, false), attack(7, true)];
    assert_eq!(bot_ai_tick(&cache, &bot(7), &others, 1, 100), expected);
    let mut due = bot(7);
    due.next_attack_tick = 100;
    assert_eq!(bot_ai_tick(&cache, &due, &vec![], 1, 100), expected);
}

#[test]
fn bots_wait_their_turn() {
    let mut cache = cache_of(1);
    cache.set_owner(10, 10, 7);
    let mut cooling = bot(7);
    cooling.next_attack_tick = 101;
    let mut dead = bot(7);
    dead.alive = false;
    let mut unborn = bot(7);
    unborn.spawn_tile = None;
    let mut human = bot(7);
    human.is_bot = false;
    for b in [cooling, dead, unborn, human] {
        assert_eq!(bot_ai_tick(&cache, &b, &vec![], 1, 100), BotMove::Wait);
    }
    let busy = vec![attack(7, false)];
    assert_eq!(bot_ai_tick(&cache, &bot(7), &busy, 1, 100), BotMove::Wait);
}

#[test]
fn cooldowns_stay_in_their_range() {
    let cache = cache_of(1);
    for tick in 0..200 {
        match bot_ai_tick(&cache, &bot(9), &vec![], 5, tick) {
            BotMove::Turn { target, next_attack_tick } => {
                assert_eq!(target, None);
                assert!(tick + 40 <= next_attack_tick && next_attack_tick < tick + 80);
            }
            BotMove::Wait => panic!("the bot waits"),
        }
    }
}
