use blue_marble_front::clock::{
    check_win, init, step_match, sub_tick_count, takes_step, tick, Stage,
};
use blue_marble_front::lobby::{create_match, join_match};
use blue_marble_front::tables::{
    Identity, Match, Player, PHASE_ENDED, PHASE_LOBBY, PHASE_PLAYING, PHASE_SPAWN,
};

fn a_match(phase: u8) -> Match {
    let mut m = create_match(Identity { hi: 0, lo: 1 }, 0, "M".to_string(), 1).unwrap();
    m.phase = phase;
    m
}

fn holder(id: u32, tiles: u32) -> Player {
    let m = a_match(PHASE_LOBBY);
    let mut p =
        join_match(Some(&m), &Vec::new(), 0, Identity { hi: 0, lo: 1 }, "P".to_string()).unwrap();
    p.id = id;
    p.tiles = tiles;
    p
}

#[test]
fn the_clock_ticks_ten_times_a_second() {
    assert_eq!(init().interval_micros, 100_000);
    assert_eq!(init().scheduled_id, 0);
}

#[test]
fn fast_matches_take_several_steps() {
    for (speed, steps) in [(4u8, 1u32), (8, 2), (16, 4), (255, 4)] {
        let mut m = a_match(PHASE_PLAYING);
        m.speed_multiplier = speed;
        let before = m.clone();
        assert_eq!(sub_tick_count(&mut m), steps);
        assert_eq!(m, before);
    }
}

#[test]
fn slow_matches_gather_quarters() {
    for (speed, expected) in [(1u8, [0u32, 0, 0, 1, 0, 0, 0, 1]), (2, [0, 1, 0, 1, 0, 1, 0, 1])] {
        let mut m = a_match(PHASE_PLAYING);
        m.speed_multiplier = speed;
        let steps: Vec<u32> = (0..8).map(|_| sub_tick_count(&mut m)).collect();
        assert_eq!(steps, expected);
        assert_eq!(m.sub_tick_accum, 0);
    }
    let mut m = a_match(PHASE_PLAYING);
    m.speed_multiplier = 0;
    m.sub_tick_accum = 255;
    assert_eq!(sub_tick_count(&mut m), 1);
    assert_eq!(m.sub_tick_accum, 251);
}

#[test]
fn only_active_matches_run() {
    let mut slow = a_match(PHASE_SPAWN);
    slow.speed_multiplier = 1;
    let matches =
        vec![a_match(PHASE_LOBBY), slow.clone(), a_match(PHASE_ENDED), a_match(PHASE_PLAYING)];
    slow.sub_tick_accum = 1;
    assert_eq!(tick(matches), vec![(slow, 0), (a_match(PHASE_PLAYING), 1)]);
    assert_eq!(tick(Vec::new()), Vec::new());
}

#[test]
fn steps_have_stages() {
    let mut m = a_match(PHASE_PLAYING);
    let stages = step_match(&mut m);
    assert_eq!(m.tick, 1);
    assert_eq!(
        stages,
        vec![Stage::Growth, Stage::Attacks, Stage::BotAttacks, Stage::WinCheck]
    );
    let mut m = a_match(PHASE_SPAWN);
    m.tick = 41;
    let stages = step_match(&mut m);
    assert_eq!(m.tick, 42);
    assert_eq!(
        stages,
        vec![Stage::Growth, Stage::Attacks, Stage::BotSpawns, Stage::WinCheck]
    );
}

#[test]
fn eighty_percent_win() {
    let mut m = a_match(PHASE_PLAYING);
    m.total_land = 1000;
    check_win(&mut m, &vec![holder(1, 799), holder(2, 10)]);
    assert_eq!(m.phase, PHASE_PLAYING);
    assert_eq!(m.winner, None);
    check_win(&mut m, &vec![holder(1, 10), holder(2, 800), holder(3, 900)]);
    assert_eq!(m.phase, PHASE_ENDED);
    assert_eq!(m.winner, Some(2));
}

#[test]
fn the_dead_do_not_win() {
    let mut m = a_match(PHASE_PLAYING);
    m.total_land = 1000;
    let mut dead = holder(1, 900);
    dead.alive = false;
    check_win(&mut m, &vec![dead]);
    assert_eq!(m.phase, PHASE_PLAYING);
}

#[test]
fn nobody_wins_without_land_or_before_play() {
    let mut m = a_match(PHASE_PLAYING);
    check_win(&mut m, &vec![holder(1, 0)]);
    assert_eq!(m.phase, PHASE_PLAYING);
    let mut m = a_match(PHASE_SPAWN);
    m.total_land = 1;
    check_win(&mut m, &vec![holder(1, 1)]);
    assert_eq!(m.phase, PHASE_SPAWN);
}

#[test]
fn winning_agrees_with_single_precision() {
    for total in [1u32, 2, 3, 7, 9, 10, 99, 1000, 12_345, 300_001, 911_249, 911_250] {
        let near = total / 5 * 4;
        for tiles in near.saturating_sub(5)..=(near + 5).min(total) {
            let mut m = a_match(PHASE_PLAYING);
            m.total_land = total;
            check_win(&mut m, &vec![holder(1, tiles)]);
            let share = tiles as f32 / total as f32;
            assert_eq!(m.winner.is_some(), share >= 0.80f32, "{tiles} of {total}");
        }
    }
}

#[test]
fn ended_matches_take_no_more_steps() {
    assert!(takes_step(&a_match(PHASE_PLAYING), 1));
    assert!(takes_step(&a_match(PHASE_SPAWN), 4));
    assert!(!takes_step(&a_match(PHASE_PLAYING), 0));
    assert!(!takes_step(&a_match(PHASE_ENDED), 3));
}
