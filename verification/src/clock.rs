//! The clock of the simulation: which matches run, how many steps a tick gives them, what a step
//! does, and when a match is won.

use vstd::prelude::*;

use crate::lobby::valid_speed;
use crate::tables::{
    phase_follows, Match, Player, TickSchedule, PHASE_ENDED, PHASE_PLAYING, PHASE_SPAWN,
};

verus! {

/// The time between two ticks, in milliseconds.
pub const TICK_MS: u64 = 100;

/// A part of a step.
#[derive(Clone, Copy, PartialEq, Eq, Structural, Debug)]
pub enum Stage {
    /// Troops and gold grow.
    Growth,
    /// The attacks of the match go on.
    Attacks,
    /// Bots launch attacks.
    BotAttacks,
    /// Bots choose their spawn tiles.
    BotSpawns,
    /// Somebody may have won.
    WinCheck,
}

/// The speed of a match, brought into its range.
pub open spec fn speed_of(m: Match) -> int {
    if m.speed_multiplier < 1 {
        1
    } else if m.speed_multiplier > 16 {
        16
    } else {
        m.speed_multiplier as int
    }
}

/// The quarters of a step that a tick leaves a slow match with, before a step is taken out.
pub open spec fn gathered(m: Match) -> int {
    if m.sub_tick_accum + speed_of(m) > u8::MAX {
        u8::MAX as int
    } else {
        m.sub_tick_accum + speed_of(m)
    }
}

/// How many steps a tick gives a match. Below the normal speed, the quarters of a step are
/// gathered until they make one.
pub open spec fn steps_of(m: Match) -> u32 {
    if speed_of(m) >= 4 {
        (speed_of(m) / 4) as u32
    } else if gathered(m) >= 4 {
        1
    } else {
        0
    }
}

/// The row of a match after a tick's steps have been counted.
pub open spec fn counted(m: Match) -> Match {
    if speed_of(m) >= 4 {
        m
    } else {
        Match {
            sub_tick_accum: if gathered(m) >= 4 {
                (gathered(m) - 4) as u8
            } else {
                gathered(m) as u8
            },
            ..m
        }
    }
}

/// Is the match being played, or about to be?
pub open spec fn is_active(m: Match) -> bool {
    m.phase == PHASE_PLAYING || m.phase == PHASE_SPAWN
}

/// The active ones of the first `n` matches, each with the number of its steps.
pub open spec fn scheduled(matches: Seq<Match>, n: int) -> Seq<(Match, u32)>
    decreases n,
{
    if n <= 0 {
        Seq::empty()
    } else if is_active(matches[n - 1]) {
        scheduled(matches, n - 1).push((counted(matches[n - 1]), steps_of(matches[n - 1])))
    } else {
        scheduled(matches, n - 1)
    }
}

/// The parts of a step of a match.
pub open spec fn stages_of(phase: u8) -> Seq<Stage> {
    if phase == PHASE_PLAYING {
        seq![Stage::Growth, Stage::Attacks, Stage::BotAttacks, Stage::WinCheck]
    } else if phase == PHASE_SPAWN {
        seq![Stage::Growth, Stage::Attacks, Stage::BotSpawns, Stage::WinCheck]
    } else {
        seq![Stage::Growth, Stage::Attacks, Stage::WinCheck]
    }
}

/// Does a player hold enough land to win: 80 percent of it?
pub open spec fn holds_enough(player: Player, total_land: u32) -> bool {
    player.alive && player.tiles * 100 >= total_land * 80
}

/// The place of the first player that holds enough land, from a place on.
pub open spec fn winner_from(players: Seq<Player>, total_land: u32, from: int) -> Option<int>
    decreases players.len() - from,
{
    if from >= players.len() {
        None
    } else if holds_enough(players[from], total_land) {
        Some(from)
    } else {
        winner_from(players, total_land, from + 1)
    }
}

/// The row of a match after it has been looked at for a winner.
pub open spec fn judged(m: Match, players: Seq<Player>) -> Match {
    if m.phase == PHASE_PLAYING && m.total_land > 0 {
        match winner_from(players, m.total_land, 0) {
            Some(i) => Match { winner: Some(players[i].id), phase: PHASE_ENDED, ..m },
            None => m,
        }
    } else {
        m
    }
}

/// The schedule of the ticks.
pub fn init() -> (r: TickSchedule)
    ensures
        r == (TickSchedule { scheduled_id: 0, interval_micros: 100_000 }),
{
    TickSchedule { scheduled_id: 0, interval_micros: (TICK_MS * 1000) as i64 }
}

/// Counts the steps that a tick gives a match.
pub fn sub_tick_count(m: &mut Match) -> (r: u32)
    ensures
        *final(m) == counted(*old(m)),
        r == steps_of(*old(m)),
{
    let speed: u8 = if m.speed_multiplier < 1 {
        1
    } else if m.speed_multiplier > 16 {
        16
    } else {
        m.speed_multiplier
    };
    if speed >= 4 {
        return speed as u32 / 4;
    }
    m.sub_tick_accum = m.sub_tick_accum.saturating_add(speed);
    if m.sub_tick_accum >= 4 {
        m.sub_tick_accum -= 4;
        1
    } else {
        0
    }
}

/// A tick: the matches that are active, each with the number of steps that it now takes. All of
/// them are to be stored, also where no step is taken.
pub fn tick(matches: Vec<Match>) -> (r: Vec<(Match, u32)>)
    ensures
        r@ == scheduled(matches@, matches@.len() as int),
{
    let mut r: Vec<(Match, u32)> = Vec::new();
    let ghost all = matches@;
    let mut rest: Vec<Match> = matches;
    let ghost mut done: int = 0;
    while rest.len() > 0
        invariant
            0 <= done <= all.len(),
            rest@ == all.skip(done),
            r@ == scheduled(all, done),
        decreases rest@.len(),
    {
        let mut m: Match = rest.remove(0);
        proof {
            assert(m == all[done]);
            assert(rest@ =~= all.skip(done + 1));
            done = done + 1;
        }
        if m.phase == PHASE_PLAYING || m.phase == PHASE_SPAWN {
            let count: u32 = sub_tick_count(&mut m);
            r.push((m, count));
        }
    }
    r
}

/// Does a match take another step, with so many left in the tick?
pub open spec fn steps_again(m: Match, left: u32) -> bool {
    left > 0 && m.phase != PHASE_ENDED
}

/// A match at its next tick.
pub open spec fn ticked(m: Match) -> Match {
    Match { tick: (m.tick + 1) as u64, ..m }
}

/// Does a match take another step in a tick that has some left? Not once it has ended.
pub fn takes_step(m: &Match, left: u32) -> (r: bool)
    ensures
        r == steps_again(*m, left),
{
    left > 0 && m.phase != PHASE_ENDED
}

/// Begins a step of a match: its tick, and the parts of the step.
pub fn step_match(m: &mut Match) -> (r: Vec<Stage>)
    requires
        old(m).tick < u64::MAX,
    ensures
        *final(m) == ticked(*old(m)),
        r@ == stages_of(old(m).phase),
{
    m.tick += 1;
    let mut r: Vec<Stage> = Vec::new();
    r.push(Stage::Growth);
    r.push(Stage::Attacks);
    if m.phase == PHASE_PLAYING {
        r.push(Stage::BotAttacks);
    }
    if m.phase == PHASE_SPAWN {
        r.push(Stage::BotSpawns);
    }
    r.push(Stage::WinCheck);
    assert(r@ =~= stages_of(old(m).phase));
    r
}

/// Ends a match that is being played once somebody holds enough of its land. Of several such
/// players the first wins.
pub fn check_win(m: &mut Match, players: &Vec<Player>)
    ensures
        *final(m) == judged(*old(m), players@),
        phase_follows(old(m).phase, final(m).phase),
{
    if m.phase != PHASE_PLAYING || m.total_land == 0 {
        return ;
    }
    let total: u64 = m.total_land as u64;
    let mut i: usize = 0;
    while i < players.len()
        invariant
            *m == *old(m),
            total == m.total_land,
            m.phase == PHASE_PLAYING,
            m.total_land > 0,
            i <= players@.len(),
            winner_from(players@, m.total_land, 0) == winner_from(
                players@,
                m.total_land,
                i as int,
            ),
        decreases players@.len() - i,
    {
        if players[i].alive && players[i].tiles as u64 * 100 >= total * 80 {
            m.winner = Some(players[i].id);
            m.phase = PHASE_ENDED;
            return ;
        }
        i += 1;
    }
}

/// The row of a match after `n` ticks have been counted.
pub open spec fn counted_ticks(m: Match, n: nat) -> Match
    decreases n,
{
    if n == 0 {
        m
    } else {
        counted(counted_ticks(m, (n - 1) as nat))
    }
}

/// How many steps `n` ticks give a match.
pub open spec fn steps_in(m: Match, n: nat) -> nat
    decreases n,
{
    if n == 0 {
        0
    } else {
        steps_in(m, (n - 1) as nat) + steps_of(counted_ticks(m, (n - 1) as nat)) as nat
    }
}

/// A match keeps its speed: whatever the ticks, it has taken as many steps as there are whole
/// ones in the quarters that its speed has given it and those that were left over before.
pub proof fn lemma_speed_is_kept(m: Match, n: nat)
    requires
        valid_speed(m.speed_multiplier),
        m.sub_tick_accum < 4,
    ensures
        m.speed_multiplier < 4 ==> {
            &&& steps_in(m, n) == (m.sub_tick_accum + n * m.speed_multiplier) / 4
            &&& counted_ticks(m, n).sub_tick_accum == (m.sub_tick_accum + n * m.speed_multiplier)
                % 4
        },
        m.speed_multiplier >= 4 ==> {
            &&& 4 * steps_in(m, n) == n * m.speed_multiplier
            &&& counted_ticks(m, n).sub_tick_accum == m.sub_tick_accum
        },
        counted_ticks(m, n) == (Match {
            sub_tick_accum: counted_ticks(m, n).sub_tick_accum,
            ..m
        }),
    decreases n,
{
    let s = m.speed_multiplier as int;
    if n > 0 {
        let before = (n - 1) as nat;
        lemma_speed_is_kept(m, before);
        assert(n * s == before * s + s) by (nonlinear_arith)
            requires
                n == before + 1,
        ;
    }
}

/// The winner of a match is a living player of it that holds 80 percent of the land, and a match
/// without one has no such player.
pub proof fn lemma_winner(players: Seq<Player>, total_land: u32, from: int)
    requires
        0 <= from <= players.len(),
    ensures
        match winner_from(players, total_land, from) {
            Some(i) => {
                &&& from <= i < players.len()
                &&& holds_enough(players[i], total_land)
                &&& forall|j: int|
                    from <= j < i ==> !holds_enough(#[trigger] players[j], total_land)
            },
            None => forall|j: int|
                from <= j < players.len() ==> !holds_enough(#[trigger] players[j], total_land),
        },
    decreases players.len() - from,
{
    if from < players.len() && !holds_enough(players[from], total_land) {
        lemma_winner(players, total_land, from + 1);
    }
}

} // verus!
