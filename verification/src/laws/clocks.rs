//! Which matches run, how many steps a tick gives them, what a step is made of, and who wins.

use vstd::prelude::*;

use crate::clock::{
    counted, judged, lemma_winner, scheduled, stages_of, steps_again, steps_of, ticked, winner_from,
    Stage,
};
use crate::tables::{phase_follows, Match, Player};

verus! {

/// The speed that counts: at least a quarter of the normal one, at most four times it.
pub open spec fn pace(m: Match) -> int {
    if m.speed_multiplier == 0 {
        1
    } else if m.speed_multiplier > 16 {
        16
    } else {
        m.speed_multiplier as int
    }
}

/// At the normal speed or more, a tick gives a match a whole step for every four quarters, and changes
/// nothing. Below it, the quarters are gathered: none gets lost, up to what a byte holds, and a step is
/// taken out of them as soon as there are four.
pub proof fn lemma_tick_counts(m: Match)
    ensures
        ({
            let steps = steps_of(m) as int;
            let after = counted(m);
            &&& pace(m) >= 4 ==> 4 * steps <= pace(m) < 4 * steps + 4 && after == m
            &&& pace(m) < 4 ==> {
                &&& m.sub_tick_accum + pace(m) <= 255 ==> 4 * steps + after.sub_tick_accum
                    == m.sub_tick_accum + pace(m)
                &&& m.sub_tick_accum + pace(m) > 255 ==> 4 * steps + after.sub_tick_accum == 255
                &&& steps == 1 <==> m.sub_tick_accum + pace(m) >= 4
                &&& steps <= 1
                &&& after == (Match { sub_tick_accum: after.sub_tick_accum, ..m })
            }
        }),
{
}

/// A tick takes every match that is spawning or being played, in order, and no other.
pub proof fn lemma_scheduled(matches: Seq<Match>, n: int)
    requires
        0 <= n <= matches.len(),
    ensures
        forall|i: int|
            0 <= i < n && ((#[trigger] matches[i]).phase == 1 || matches[i].phase == 2)
                ==> scheduled(matches, n).contains((counted(matches[i]), steps_of(matches[i]))),
        forall|j: int|
            0 <= j < scheduled(matches, n).len() ==> comes_from(
                matches,
                n,
                #[trigger] scheduled(matches, n)[j],
            ),
        scheduled(matches, n).len() == active_among(matches, n),
        n > 0 ==> scheduled(matches, n - 1).is_prefix_of(scheduled(matches, n)),
    decreases n,
{
    if n > 0 {
        lemma_scheduled(matches, n - 1);
        let before = scheduled(matches, n - 1);
        let after = scheduled(matches, n);
        assert forall|i: int|
            0 <= i < n && ((#[trigger] matches[i]).phase == 1 || matches[i].phase == 2) implies
            after.contains((counted(matches[i]), steps_of(matches[i]))) by {
            let entry = (counted(matches[i]), steps_of(matches[i]));
            if i < n - 1 {
                let k = choose|k: int| 0 <= k < before.len() && before[k] == entry;
                assert(after[k] == entry);
            } else {
                assert(after[before.len() as int] == entry);
            }
        }
        assert forall|j: int| 0 <= j < after.len() implies comes_from(
            matches,
            n,
            #[trigger] after[j],
        ) by {
            if j < before.len() {
                assert(after[j] == before[j]);
                assert(comes_from(matches, n - 1, before[j]));
                let i = choose|i: int|
                    0 <= i < n - 1 && ((#[trigger] matches[i]).phase == 1 || matches[i].phase == 2)
                        && before[j] == (counted(matches[i]), steps_of(matches[i]));
                assert(matches[i].phase == 1 || matches[i].phase == 2);
            } else {
                assert(matches[n - 1].phase == 1 || matches[n - 1].phase == 2);
            }
        }
    }
}

/// Is this what a tick makes of one of the first `n` matches that is spawning or being played?
pub open spec fn comes_from(matches: Seq<Match>, n: int, entry: (Match, u32)) -> bool {
    exists|i: int|
        0 <= i < n && ((#[trigger] matches[i]).phase == 1 || matches[i].phase == 2) && entry == (
            counted(matches[i]),
            steps_of(matches[i]),
        )
}

/// How many of the first `n` matches are spawning or being played.
pub open spec fn active_among(matches: Seq<Match>, n: int) -> int
    decreases n,
{
    if n <= 0 {
        0
    } else {
        active_among(matches, n - 1) + if matches[n - 1].phase == 1 || matches[n - 1].phase == 2 {
            1int
        } else {
            0
        }
    }
}

/// Every step begins with growth and the attacks and ends with a look for the winner; bots attack while
/// a match is being played, and spawn while it is spawning.
pub proof fn lemma_stages(phase: u8)
    ensures
        ({
            let stages = stages_of(phase);
            &&& stages.len() == if phase == 1 || phase == 2 {
                4nat
            } else {
                3nat
            }
            &&& stages[0] == Stage::Growth
            &&& stages[1] == Stage::Attacks
            &&& phase == 2 ==> stages[2] == Stage::BotAttacks
            &&& phase == 1 ==> stages[2] == Stage::BotSpawns
            &&& stages[stages.len() - 1] == Stage::WinCheck
        }),
{
}

/// A match that is being played ends if and only if a living player holds four fifths of its land, and
/// the first such player wins. Nothing else of it changes, and no other match ends.
pub proof fn lemma_judged(m: Match, players: Seq<Player>)
    ensures
        ({
            let after = judged(m, players);
            let judges = m.phase == 2 && m.total_land > 0;
            &&& judges && (exists|i: int|
                0 <= i < players.len() && (#[trigger] players[i]).alive && 5 * players[i].tiles >= 4
                    * m.total_land) ==> {
                &&& after.phase == 3
                &&& after.winner is Some
                &&& after == (Match { phase: 3, winner: after.winner, ..m })
                &&& exists|i: int|
                    0 <= i < players.len() && after.winner == Some((#[trigger] players[i]).id)
                        && players[i].alive && 5 * players[i].tiles >= 4 * m.total_land && forall|
                        j: int,
                    |
                        0 <= j < i && (#[trigger] players[j]).alive ==> 5 * players[j].tiles < 4
                            * m.total_land
            }
            &&& !(judges && exists|i: int|
                0 <= i < players.len() && (#[trigger] players[i]).alive && 5 * players[i].tiles >= 4
                    * m.total_land) ==> after == m
        }),
{
    lemma_winner(players, m.total_land, 0);
    match winner_from(players, m.total_land, 0) {
        Some(i) => {
            assert(players[i].alive && 5 * players[i].tiles >= 4 * m.total_land);
        },
        None => {},
    }
}

/// A match goes from its lobby to spawning, to being played and to its end, one after the other, or
/// stays; it never goes back.
pub proof fn lemma_phases(before: u8, after: u8)
    ensures
        phase_follows(before, after) <==> after == before || (after == before + 1 && after <= 3),
{
}

/// Every step moves a match on by one tick and changes nothing else by that. A match takes the steps
/// that a tick gives it, until it has ended.
pub proof fn lemma_ticked(m: Match, left: u32)
    requires
        m.tick < u64::MAX,
    ensures
        ticked(m).tick == m.tick + 1,
        ticked(m) == (Match { tick: ticked(m).tick, ..m }),
        left == 0 ==> !steps_again(m, left),
        m.phase == 3 ==> !steps_again(m, left),
        left > 0 && m.phase != 3 ==> steps_again(m, left),
{
}

} // verus!
