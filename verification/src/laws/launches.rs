//! What a launch touches, what it leaves, and when it is refused.

use vstd::prelude::*;

use crate::error::GameError;
use crate::launch::{
    attack_answer, begun, called_off, goes_on, launch_refusal, lemma_ongoing_from,
    lemma_opposing_from, no_border, ongoing_from, opposes, opposing_from, spared, standing, Launch,
    LaunchChoice,
};
use crate::laws::attacks::below_one;
use crate::players::{human_place, lemma_human_from};
use crate::quantity::Quantity;
use crate::tables::{Attack, Identity, Match, Player};

verus! {

/// Is this an attack of the launch's target on the launch's attacker that goes on? The wilderness has
/// none.
pub open spec fn strikes_back(attack: Attack, attacker: u32, target: u32) -> bool {
    &&& target != 0
    &&& attack.attacker == target
    &&& attack.target == attacker
    &&& attack.retreating == false
}

/// Only an attack of the launch's target on the launch's attacker is ever absorbed into or cancelled,
/// and the first of them from where the launch looks; it goes on, and the target is no wilderness.
pub proof fn lemma_only_strikes_back_are_met(
    attacks: Seq<Attack>,
    attacker: u32,
    target: u32,
    seen: int,
    place: int,
)
    requires
        0 <= seen <= attacks.len(),
        opposing_from(attacks, attacker, target, seen) == Some(place),
    ensures
        seen <= place < attacks.len(),
        attacks[place].attacker == target,
        attacks[place].target == attacker,
        !attacks[place].retreating,
        target != 0,
        forall|j: int| seen <= j < place ==> !strikes_back(#[trigger] attacks[j], attacker, target),
{
    lemma_opposing_from(attacks, attacker, target, seen);
    assert forall|j: int| seen <= j < place implies !strikes_back(
        #[trigger] attacks[j],
        attacker,
        target,
    ) by {
        assert(!opposes(attacks[j], attacker, target));
    }
}

/// A launch merges or opens only where its target has no attack left on its attacker that goes on.
pub proof fn lemma_all_strikes_back_are_met(
    attacks: Seq<Attack>,
    attacker: u32,
    target: u32,
    seen: int,
    place: int,
)
    requires
        0 <= seen <= place < attacks.len(),
        opposing_from(attacks, attacker, target, seen) is None,
    ensures
        !strikes_back(attacks[place], attacker, target),
{
    lemma_opposing_from(attacks, attacker, target, seen);
    assert(!opposes(attacks[place], attacker, target));
}

/// Attacks on anybody else, attacks of anybody else, attacks on the wilderness and attacks that retreat
/// are all still standing after a launch.
pub proof fn lemma_others_stand(
    attacks: Seq<Attack>,
    attacker: u32,
    target: u32,
    seen: int,
    place: int,
)
    requires
        0 <= seen <= attacks.len(),
        0 <= place < attacks.len(),
        attacks[place].attacker != target || attacks[place].target != attacker
            || attacks[place].retreating || target == 0,
    ensures
        standing(attacks, attacker, target, seen).contains(attacks[place]),
{
    let left = standing(attacks, attacker, target, seen);
    let before = spared(attacks, attacker, target, seen);
    if place < seen {
        lemma_spares(attacks, attacker, target, seen, place);
        let i = choose|i: int| 0 <= i < before.len() && before[i] == attacks[place];
        assert(left[i] == attacks[place]);
    } else {
        assert(left[before.len() + place - seen] == attacks[place]);
    }
}

/// What does not strike back is spared.
proof fn lemma_spares(attacks: Seq<Attack>, attacker: u32, target: u32, n: int, place: int)
    requires
        0 <= place < n <= attacks.len(),
        !strikes_back(attacks[place], attacker, target),
    ensures
        spared(attacks, attacker, target, n).contains(attacks[place]),
    decreases n,
{
    let before = spared(attacks, attacker, target, n - 1);
    let left = spared(attacks, attacker, target, n);
    if place == n - 1 {
        assert(!opposes(attacks[place], attacker, target));
        assert(left[before.len() as int] == attacks[place]);
    } else {
        lemma_spares(attacks, attacker, target, n - 1, place);
        let i = choose|i: int| 0 <= i < before.len() && before[i] == attacks[place];
        assert(left[i] == attacks[place]);
    }
}

/// A launch merges with the first attack of its attacker on its target that does not retreat, and
/// opens a new one only where there is none.
pub proof fn lemma_merges_with_own(attacks: Seq<Attack>, attacker: u32, target: u32, place: int)
    requires
        0 <= place < attacks.len(),
        attacks[place].attacker == attacker,
        attacks[place].target == target,
        !attacks[place].retreating,
    ensures
        ({
            let mine = ongoing_from(attacks, attacker, target, 0);
            &&& mine is Some
            &&& 0 <= mine->Some_0 <= place
            &&& attacks[mine->Some_0].attacker == attacker
            &&& attacks[mine->Some_0].target == target
            &&& !attacks[mine->Some_0].retreating
        }),
{
    lemma_ongoing_from(attacks, attacker, target, 0);
}

/// What a launch merges with is an attack of its attacker on its target that does not retreat.
pub proof fn lemma_merges_with_own_only(attacks: Seq<Attack>, attacker: u32, target: u32)
    requires
        ongoing_from(attacks, attacker, target, 0) is Some,
    ensures
        ({
            let place = ongoing_from(attacks, attacker, target, 0)->Some_0;
            &&& 0 <= place < attacks.len()
            &&& attacks[place].attacker == attacker
            &&& attacks[place].target == target
            &&& !attacks[place].retreating
        }),
{
    lemma_ongoing_from(attacks, attacker, target, 0);
}

/// A launch is accepted if and only if the attacker is not its own target, is there, lives and has
/// spawned, the target is the wilderness or a living player of the match, and the launch has at least
/// one troop. Each refusal says which of these fails first.
pub proof fn lemma_launch_answer(
    match_id: u64,
    attacker_id: u32,
    target_player: u32,
    attacker: Option<Player>,
    target: Option<&Player>,
    start: Quantity,
)
    ensures
        ({
            let answer = launch_refusal(
                match_id,
                attacker_id,
                target_player,
                attacker,
                target,
                start,
            );
            let ready = attacker_id != target_player && attacker is Some && attacker->Some_0.alive
                && attacker->Some_0.spawn_tile is Some;
            let there = target_player == 0 || target is Some;
            let here = target_player == 0 || target->Some_0.match_id == match_id;
            let lives = target_player == 0 || target->Some_0.alive;
            &&& answer is None <==> ready && there && here && lives && !below_one(start)
            &&& answer == Some(GameError::CannotAttackYourself) <==> attacker_id == target_player
            &&& answer == Some(GameError::AttackerNotFound) <==> attacker_id != target_player
                && attacker is None
            &&& answer == Some(GameError::Eliminated) <==> attacker_id != target_player
                && attacker is Some && !attacker->Some_0.alive
            &&& answer == Some(GameError::NotYetSpawned) <==> attacker_id != target_player
                && attacker is Some && attacker->Some_0.alive && attacker->Some_0.spawn_tile is None
            &&& answer == Some(GameError::TargetNotFound) <==> ready && !there
            &&& answer == Some(GameError::TargetNotInMatch) <==> ready && there && !here
            &&& answer == Some(GameError::TargetIsDead) <==> ready && there && here && !lives
            &&& answer == Some(GameError::NotEnoughTroops) <==> ready && there && here && lives
                && below_one(start)
        }),
{
}

/// A new attack has the launch's troops, attacker and target, is not retreating, and has the tiles of
/// its border, in their order, both as its border and as the tiles to conquer, with their priorities.
pub proof fn lemma_new_attack(launch: Launch, border: Seq<(u32, i32)>, tick: u64)
    ensures
        ({
            let row = launch.opened(border, tick);
            &&& row.id == 0
            &&& row.match_id == launch.match_id
            &&& row.attacker == launch.attacker.id
            &&& row.target == launch.target
            &&& row.troops == launch.pool
            &&& !row.retreating
            &&& row.source_tile is None
            &&& row.last_refresh_tick == tick
            &&& row.border.len() == border.len()
            &&& row.to_conquer_tiles.len() == border.len()
            &&& row.to_conquer_priorities.len() == border.len()
            &&& forall|i: int|
                0 <= i < border.len() ==> row.border[i] == (#[trigger] border[i]).0
                    && row.to_conquer_tiles[i] == border[i].0 && row.to_conquer_priorities[i]
                    == border[i].1
        }),
{
}

/// An attack without a border is refused as one on the wilderness or on a player.
pub proof fn lemma_no_border(target: u32)
    ensures
        no_border(target) == GameError::NoBorderingWilderness <==> target == 0,
        no_border(target) == GameError::NoBorderWithTarget <==> target != 0,
{
}

/// A client attacks as its own player, and only while its match is being played.
pub proof fn lemma_attack_answer(m: Option<&Match>, players: Seq<Player>, sender: Identity)
    ensures
        ({
            let answer = attack_answer(m, players, sender);
            let place = human_place(players, sender);
            &&& m is None <==> answer == Err::<u32, GameError>(GameError::MatchNotFound)
            &&& m is Some && m->Some_0.phase != 2 <==> answer == Err::<u32, GameError>(
                GameError::MatchNotInPlay,
            )
            &&& m is Some && m->Some_0.phase == 2 && place is None <==> answer == Err::<
                u32,
                GameError,
            >(GameError::NotInMatch)
            &&& m is Some && m->Some_0.phase == 2 && place is Some ==> {
                &&& answer is Ok
                &&& answer->Ok_0 == players[place->Some_0].id
                &&& players[place->Some_0].identity == sender
                &&& !players[place->Some_0].is_bot
            }
        }),
{
    lemma_human_from(players, sender, 0);
}

/// A launch begins with the troops that were committed, all of them in its pool, and has seen no
/// attack. Nothing of the attacker changes but its troops.
pub proof fn lemma_begun(
    match_id: u64,
    attacker: Player,
    target: u32,
    start: Quantity,
    troops_left: Quantity,
)
    ensures
        ({
            let launch = begun(match_id, attacker, target, start, troops_left);
            &&& launch.match_id == match_id
            &&& launch.target == target
            &&& launch.pool == start
            &&& launch.seen == 0
            &&& launch.attacker.troops == troops_left
            &&& launch.attacker == (Player { troops: launch.attacker.troops, ..attacker })
        }),
{
}

/// An opposing attack uses a launch up if and only if it has more troops. With as many or fewer it
/// ends instead.
pub proof fn lemma_absorbed(launch: Launch, attack: Attack)
    requires
        launch.pool.bits <= 0x7F80_0000,
        attack.troops.bits <= 0x7F80_0000,
    ensures
        launch.absorbed_by(attack) <==> launch.pool.bits < attack.troops.bits,
{
}

/// A launch goes past the attack that it has cancelled, and then has the troops that were left. It
/// changes in nothing else.
pub proof fn lemma_goes_past(launch: Launch, place: usize, pool: Quantity)
    requires
        place < usize::MAX,
    ensures
        ({
            let past = launch.past(place as int);
            &&& past.seen == place + 1
            &&& past == (Launch { seen: past.seen, ..launch })
        }),
        launch.with_pool(pool).pool == pool,
        launch.with_pool(pool) == (Launch { pool: launch.with_pool(pool).pool, ..launch }),
{
}

/// A client calls its own first attack on the target off that goes on: that one then retreats, with its
/// troops and its front, and no other attack changes. Without one, nothing changes.
pub proof fn lemma_called_off(
    players: Seq<Player>,
    attacks: Seq<Attack>,
    sender: Identity,
    target: u32,
)
    requires
        attacks.len() <= usize::MAX,
    ensures
        ({
            let (answer, after) = called_off(players, attacks, sender, target);
            let place = human_place(players, sender);
            let id = players[place->Some_0].id;
            &&& place is None <==> answer == Err::<usize, GameError>(GameError::NotInMatch)
            &&& answer is Err ==> after == attacks
            &&& place is Some && answer is Err ==> {
                &&& answer->Err_0 == GameError::NoActiveAttack
                &&& forall|j: int|
                    0 <= j < attacks.len() && (#[trigger] attacks[j]).attacker == id
                        && attacks[j].target == target ==> attacks[j].retreating
            }
            &&& answer is Ok ==> {
                let i = answer->Ok_0 as int;
                &&& 0 <= i < attacks.len()
                &&& attacks[i].attacker == id
                &&& attacks[i].target == target
                &&& !attacks[i].retreating
                &&& forall|j: int|
                    0 <= j < i && (#[trigger] attacks[j]).attacker == id && attacks[j].target
                        == target ==> attacks[j].retreating
                &&& after.len() == attacks.len()
                &&& after[i] == (Attack { retreating: after[i].retreating, ..attacks[i] })
                &&& after[i].retreating
                &&& forall|j: int|
                    0 <= j < attacks.len() && j != i ==> #[trigger] after[j] == attacks[j]
            }
        }),
{
    lemma_human_from(players, sender, 0);
    let place = human_place(players, sender);
    if place is Some {
        let id = players[place->Some_0].id;
        lemma_ongoing_from(attacks, id, target, 0);
        match ongoing_from(attacks, id, target, 0) {
            Some(i) => {
                assert forall|j: int|
                    0 <= j < i && (#[trigger] attacks[j]).attacker == id && attacks[j].target
                        == target implies attacks[j].retreating by {
                    assert(!goes_on(attacks[j], id, target));
                }
            },
            None => {
                assert forall|j: int|
                    0 <= j < attacks.len() && (#[trigger] attacks[j]).attacker == id
                        && attacks[j].target == target implies attacks[j].retreating by {
                    assert(!goes_on(attacks[j], id, target));
                }
            },
        }
    }
}

/// As long as an attack of its target on its attacker goes on, a launch does nothing but deal with the
/// first of those that it has not seen: one with more troops uses it up, any other ends. Only then does
/// it join its attacker's own first attack on the target that goes on, only without one does it open a
/// new attack, and only without a border for that does it give up.
pub proof fn lemma_choice(launch: Launch, attacks: Seq<Attack>, border: Seq<(u32, i32)>, j: int)
    requires
        launch.seen <= attacks.len(),
        0 <= j < attacks.len(),
    ensures
        ({
            let me = launch.attacker.id;
            let choice = launch.choice(attacks, border);
            let met = strikes_back(attacks[j], me, launch.target) && j >= launch.seen;
            let mine = attacks[j].attacker == me && attacks[j].target == launch.target
                && !attacks[j].retreating;
            &&& choice matches LaunchChoice::Absorb { place } ==> {
                &&& launch.seen <= place < attacks.len()
                &&& strikes_back(attacks[place], me, launch.target)
                &&& launch.pool.lt_spec(attacks[place].troops)
                &&& met ==> place <= j
            }
            &&& choice matches LaunchChoice::Cancel { place } ==> {
                &&& launch.seen <= place < attacks.len()
                &&& strikes_back(attacks[place], me, launch.target)
                &&& !launch.pool.lt_spec(attacks[place].troops)
                &&& met ==> place <= j
            }
            &&& choice matches LaunchChoice::Merge { place } ==> {
                &&& 0 <= place < attacks.len()
                &&& attacks[place].attacker == me
                &&& attacks[place].target == launch.target
                &&& !attacks[place].retreating
                &&& !met
                &&& mine ==> place <= j
            }
            &&& choice is Open ==> !met && !mine && border.len() > 0
            &&& choice is Refund ==> !met && !mine && border.len() == 0
        }),
{
    let me = launch.attacker.id;
    lemma_opposing_from(attacks, me, launch.target, launch.seen as int);
    lemma_ongoing_from(attacks, me, launch.target, 0);
    assert(strikes_back(attacks[j], me, launch.target) ==> opposes(attacks[j], me, launch.target));
    assert(attacks[j].attacker == me && attacks[j].target == launch.target && !attacks[j].retreating
        ==> goes_on(attacks[j], me, launch.target));
}

/// Without attacks, a launch opens one where it has a border, and gives up where it has none.
pub proof fn lemma_choice_without_attacks(launch: Launch, border: Seq<(u32, i32)>)
    ensures
        launch.choice(Seq::empty(), border) is Open <==> border.len() > 0,
        launch.choice(Seq::empty(), border) is Refund <==> border.len() == 0,
{
}

} // verus!
