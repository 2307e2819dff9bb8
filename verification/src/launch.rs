//! Launching attacks and calling them off.
//!
//! The troop arithmetic is done elsewhere. A launch asks for it with a [`LaunchAction`], and goes
//! on with what came of it.

use vstd::prelude::*;

use crate::attack::spent;
use crate::chunks::ChunkCache;
use crate::error::GameError;
use crate::front::{attack_border, seed_attack_border, tiles_of};
use crate::players::{find_human, human_place};
use crate::quantity::{one, one_quantity, Quantity};
use crate::tables::{
    Attack, AttackView, Identity, Match, Player, PHASE_PLAYING, TARGET_WILDERNESS,
};

verus! {

/// What a launch does next. Attacks are named by their places in the list of the match's attacks.
pub enum LaunchAction {
    /// The opposing attack loses the troops of this one, which is used up; the launch is done.
    Absorb { attack: usize },
    /// The opposing attack ends, and this one loses its troops.
    Cancel { attack: usize },
    /// An attack under way gets the troops of this one; the launch is done.
    Merge { attack: usize },
    /// A new attack is stored; the launch is done.
    Open { row: Attack },
    /// There is nothing to attack: the attacker gets the troops back, and the launch is refused.
    Refund { error: GameError },
}

/// Which way a launch goes on, with the places of the attacks that it meets.
pub enum LaunchChoice {
    Absorb { place: int },
    Cancel { place: int },
    Merge { place: int },
    Open,
    Refund,
}

/// A launch under way.
pub struct Launch {
    pub match_id: u64,
    /// The attacker's row, the committed troops taken out.
    pub attacker: Player,
    pub target: u32,
    /// The troops of the attack.
    pub pool: Quantity,
    /// How many of the match's attacks have been looked at for opposing ones.
    pub seen: usize,
}

/// Does this attack go against an attack of `attacker` on the player `target`?
pub open spec fn opposes(attack: Attack, attacker: u32, target: u32) -> bool {
    target != TARGET_WILDERNESS && attack.attacker == target && attack.target == attacker
        && !attack.retreating
}

/// Is this an attack of `attacker` on `target` that goes on?
pub open spec fn goes_on(attack: Attack, attacker: u32, target: u32) -> bool {
    attack.attacker == attacker && attack.target == target && !attack.retreating
}

/// The place of the first opposing attack, from a place on.
pub open spec fn opposing_from(
    attacks: Seq<Attack>,
    attacker: u32,
    target: u32,
    from: int,
) -> Option<int>
    decreases attacks.len() - from,
{
    if from >= attacks.len() {
        None
    } else if opposes(attacks[from], attacker, target) {
        Some(from)
    } else {
        opposing_from(attacks, attacker, target, from + 1)
    }
}

/// The place of the first attack that goes on, from a place on.
pub open spec fn ongoing_from(
    attacks: Seq<Attack>,
    attacker: u32,
    target: u32,
    from: int,
) -> Option<int>
    decreases attacks.len() - from,
{
    if from >= attacks.len() {
        None
    } else if goes_on(attacks[from], attacker, target) {
        Some(from)
    } else {
        ongoing_from(attacks, attacker, target, from + 1)
    }
}

/// The place of an ongoing attack is a place, is such an attack, and is the first.
pub proof fn lemma_ongoing_from(attacks: Seq<Attack>, attacker: u32, target: u32, from: int)
    requires
        0 <= from <= attacks.len(),
    ensures
        match ongoing_from(attacks, attacker, target, from) {
            Some(i) => {
                &&& from <= i < attacks.len()
                &&& goes_on(attacks[i], attacker, target)
                &&& forall|j: int|
                    from <= j < i ==> !goes_on(#[trigger] attacks[j], attacker, target)
            },
            None => forall|j: int|
                from <= j < attacks.len() ==> !goes_on(#[trigger] attacks[j], attacker, target),
        },
    decreases attacks.len() - from,
{
    if from < attacks.len() && !goes_on(attacks[from], attacker, target) {
        lemma_ongoing_from(attacks, attacker, target, from + 1);
    }
}

/// The place of an opposing attack is a place, is such an attack, and is the first.
pub proof fn lemma_opposing_from(attacks: Seq<Attack>, attacker: u32, target: u32, from: int)
    requires
        0 <= from <= attacks.len(),
    ensures
        match opposing_from(attacks, attacker, target, from) {
            Some(i) => {
                &&& from <= i < attacks.len()
                &&& opposes(attacks[i], attacker, target)
                &&& forall|j: int|
                    from <= j < i ==> !opposes(#[trigger] attacks[j], attacker, target)
            },
            None => forall|j: int|
                from <= j < attacks.len() ==> !opposes(#[trigger] attacks[j], attacker, target),
        },
    decreases attacks.len() - from,
{
    if from < attacks.len() && !opposes(attacks[from], attacker, target) {
        lemma_opposing_from(attacks, attacker, target, from + 1);
    }
}

/// Why a launch is refused before any troops are committed, if it is.
pub open spec fn launch_refusal(
    match_id: u64,
    attacker_id: u32,
    target_player: u32,
    attacker: Option<Player>,
    target: Option<&Player>,
    start: Quantity,
) -> Option<GameError> {
    if attacker_id == target_player {
        Some(GameError::CannotAttackYourself)
    } else if attacker is None {
        Some(GameError::AttackerNotFound)
    } else if !attacker->Some_0.alive {
        Some(GameError::Eliminated)
    } else if attacker->Some_0.spawn_tile is None {
        Some(GameError::NotYetSpawned)
    } else if target_player != TARGET_WILDERNESS && target is None {
        Some(GameError::TargetNotFound)
    } else if target_player != TARGET_WILDERNESS && target->Some_0.match_id != match_id {
        Some(GameError::TargetNotInMatch)
    } else if target_player != TARGET_WILDERNESS && !target->Some_0.alive {
        Some(GameError::TargetIsDead)
    } else if start.lt_spec(one_quantity()) {
        Some(GameError::NotEnoughTroops)
    } else {
        None
    }
}

/// The answer to an attack that has no border.
pub open spec fn no_border(target: u32) -> GameError {
    if target == TARGET_WILDERNESS {
        GameError::NoBorderingWilderness
    } else {
        GameError::NoBorderWithTarget
    }
}

/// The answer to a client that wants to attack: the id of its player, or why it may not.
pub open spec fn attack_answer(m: Option<&Match>, players: Seq<Player>, sender: Identity) -> Result<
    u32,
    GameError,
> {
    if m is None {
        Err(GameError::MatchNotFound)
    } else if m->Some_0.phase != PHASE_PLAYING {
        Err(GameError::MatchNotInPlay)
    } else {
        match human_place(players, sender) {
            Some(i) => Ok(players[i].id),
            None => Err(GameError::NotInMatch),
        }
    }
}

/// A launch that begins.
pub open spec fn begun(
    match_id: u64,
    attacker: Player,
    target: u32,
    start: Quantity,
    troops_left: Quantity,
) -> Launch {
    Launch {
        match_id,
        attacker: Player { troops: troops_left, ..attacker },
        target,
        pool: start,
        seen: 0,
    }
}

/// A client's request to attack: the id of the client's player.
pub fn launch_attack(m: Option<&Match>, players: &Vec<Player>, sender: Identity) -> (r: Result<
    u32,
    GameError,
>)
    ensures
        r == attack_answer(m, players@, sender),
{
    match m {
        Some(m) => {
            if m.phase != PHASE_PLAYING {
                return Err(GameError::MatchNotInPlay);
            }
            match find_human(players, sender) {
                Some(i) => Ok(players[i].id),
                None => Err(GameError::NotInMatch),
            }
        },
        None => Err(GameError::MatchNotFound),
    }
}

/// Begins a launch: `start` troops are committed, `troops_left` stay with the attacker.
pub fn launch_attack_internal(
    match_id: u64,
    attacker_id: u32,
    target_player: u32,
    attacker: Option<Player>,
    target: Option<&Player>,
    start: Quantity,
    troops_left: Quantity,
) -> (r: Result<Launch, GameError>)
    ensures
        match launch_refusal(match_id, attacker_id, target_player, attacker, target, start) {
            Some(error) => r == Err::<Launch, GameError>(error),
            None => r == Ok::<Launch, GameError>(
                begun(match_id, attacker->Some_0, target_player, start, troops_left),
            ),
        },
{
    if attacker_id == target_player {
        return Err(GameError::CannotAttackYourself);
    }
    let mut attacker: Player = match attacker {
        Some(p) => p,
        None => {
            return Err(GameError::AttackerNotFound);
        },
    };
    if !attacker.alive {
        return Err(GameError::Eliminated);
    }
    if attacker.spawn_tile.is_none() {
        return Err(GameError::NotYetSpawned);
    }
    if target_player != TARGET_WILDERNESS {
        match target {
            Some(t) => {
                if t.match_id != match_id {
                    return Err(GameError::TargetNotInMatch);
                }
                if !t.alive {
                    return Err(GameError::TargetIsDead);
                }
            },
            None => {
                return Err(GameError::TargetNotFound);
            },
        }
    }
    if start.less_than(one()) {
        return Err(GameError::NotEnoughTroops);
    }
    attacker.troops = troops_left;
    Ok(Launch { match_id, attacker, target: target_player, pool: start, seen: 0 })
}

impl Launch {
    /// Is the launch used up by an opposing attack?
    pub open spec fn absorbed_by(self, attack: Attack) -> bool {
        self.pool.lt_spec(attack.troops)
    }

    /// Which way the launch goes on, with this border for a new attack.
    pub open spec fn choice(self, attacks: Seq<Attack>, border: Seq<(u32, i32)>) -> LaunchChoice {
        match opposing_from(attacks, self.attacker.id, self.target, self.seen as int) {
            Some(place) => if self.absorbed_by(attacks[place]) {
                LaunchChoice::Absorb { place }
            } else {
                LaunchChoice::Cancel { place }
            },
            None => match ongoing_from(attacks, self.attacker.id, self.target, 0) {
                Some(place) => LaunchChoice::Merge { place },
                None => if border.len() > 0 {
                    LaunchChoice::Open
                } else {
                    LaunchChoice::Refund
                },
            },
        }
    }

    /// The launch after the opposing attack at a place has been dealt with.
    pub open spec fn past(self, place: int) -> Launch {
        Launch { seen: (place + 1) as usize, ..self }
    }

    /// The launch with these troops.
    pub open spec fn with_pool(self, pool: Quantity) -> Launch {
        Launch { pool, ..self }
    }

    /// The row of a new attack with this border.
    pub open spec fn opened(self, border: Seq<(u32, i32)>, tick: u64) -> AttackView {
        AttackView {
            id: 0,
            match_id: self.match_id,
            attacker: self.attacker.id,
            target: self.target,
            troops: self.pool,
            retreating: false,
            border: tiles_of(border),
            to_conquer_tiles: tiles_of(border),
            to_conquer_priorities: border.map_values(|e: (u32, i32)| e.1),
            source_tile: None,
            last_refresh_tick: tick,
        }
    }

    /// The next opposing attack, if there is one.
    fn find_opposing(&self, attacks: &Vec<Attack>) -> (r: Option<usize>)
        requires
            self.seen <= attacks@.len(),
        ensures
            match r {
                Some(i) => opposing_from(
                    attacks@,
                    self.attacker.id,
                    self.target,
                    self.seen as int,
                ) == Some(i as int) && self.seen <= i < attacks.len(),
                None => opposing_from(
                    attacks@,
                    self.attacker.id,
                    self.target,
                    self.seen as int,
                ) is None,
            },
    {
        let mut i: usize = self.seen;
        while i < attacks.len()
            invariant
                self.seen <= i <= attacks@.len(),
                opposing_from(attacks@, self.attacker.id, self.target, self.seen as int)
                    == opposing_from(attacks@, self.attacker.id, self.target, i as int),
            decreases attacks@.len() - i,
        {
            let a: &Attack = &attacks[i];
            if self.target != TARGET_WILDERNESS && a.attacker == self.target && a.target
                == self.attacker.id && !a.retreating {
                return Some(i);
            }
            i += 1;
        }
        None
    }

    /// Decides what comes next. Opposing attacks come first, one by one, then an attack under way
    /// on the same target, then a new one.
    pub fn next(&mut self, attacks: &Vec<Attack>, cache: &ChunkCache, current_tick: u64) -> (r:
        LaunchAction)
        requires
            old(self).seen <= attacks@.len(),
            cache.wf(),
        ensures
            ({
                let this = *old(self);
                let border = attack_border(
                    cache.board(),
                    this.attacker.id,
                    this.target,
                    current_tick,
                    this.attacker.owned_chunks@,
                );
                let choice = this.choice(attacks@, border);
                match r {
                    LaunchAction::Absorb { attack } => {
                        &&& choice == LaunchChoice::Absorb { place: attack as int }
                        &&& *final(self) == this
                    },
                    LaunchAction::Cancel { attack } => {
                        &&& choice == LaunchChoice::Cancel { place: attack as int }
                        &&& *final(self) == this.past(attack as int)
                        &&& attack < attacks@.len()
                    },
                    LaunchAction::Merge { attack } => {
                        &&& choice == LaunchChoice::Merge { place: attack as int }
                        &&& *final(self) == this
                    },
                    LaunchAction::Open { row } => {
                        &&& choice == LaunchChoice::Open
                        &&& row@ == this.opened(border, current_tick)
                        &&& *final(self) == this
                    },
                    LaunchAction::Refund { error } => {
                        &&& choice == LaunchChoice::Refund
                        &&& error == no_border(this.target)
                        &&& *final(self) == this
                    },
                }
            }),
    {
        if let Some(i) = self.find_opposing(attacks) {
            if self.pool.less_than(attacks[i].troops) {
                return LaunchAction::Absorb { attack: i };
            }
            self.seen = i + 1;
            return LaunchAction::Cancel { attack: i };
        }
        if let Some(i) = find_ongoing(attacks, self.attacker.id, self.target) {
            return LaunchAction::Merge { attack: i };
        }
        let (border, heap): (Vec<u32>, Vec<(u32, i32)>) = seed_attack_border(
            cache,
            &self.attacker,
            self.target,
            None,
            current_tick,
        );
        if border.len() == 0 {
            return LaunchAction::Refund {
                error: if self.target == TARGET_WILDERNESS {
                    GameError::NoBorderingWilderness
                } else {
                    GameError::NoBorderWithTarget
                },
            };
        }
        let (tiles, priorities): (Vec<u32>, Vec<i32>) = split_entries(&heap);
        let row: Attack = Attack {
            id: 0,
            match_id: self.match_id,
            attacker: self.attacker.id,
            target: self.target,
            troops: self.pool,
            retreating: false,
            border,
            to_conquer_tiles: tiles,
            to_conquer_priorities: priorities,
            source_tile: None,
            last_refresh_tick: current_tick,
        };
        LaunchAction::Open { row }
    }

    /// Goes on with the troops that are left after an opposing attack has been cancelled. Returns
    /// whether that was the end of the launch, for want of troops.
    pub fn cancelled(&mut self, pool: Quantity) -> (r: bool)
        ensures
            *final(self) == old(self).with_pool(pool),
            r == spent(pool),
    {
        self.pool = pool;
        pool.less_than(one())
    }
}

/// Has every player at most one attack on the same target that goes on?
pub open spec fn one_per_front(attacks: Seq<Attack>) -> bool {
    forall|i: int, j: int|
        #![trigger attacks[i], attacks[j]]
        0 <= i < j < attacks.len() && attacks[i].attacker == attacks[j].attacker
            && attacks[i].target == attacks[j].target ==> attacks[i].retreating
            || attacks[j].retreating
}

/// A new attack is opened only where the player has none on that target that goes on, so that there
/// is never more than one.
pub proof fn lemma_open_keeps_one_per_front(attacks: Seq<Attack>, row: Attack)
    requires
        one_per_front(attacks),
        ongoing_from(attacks, row.attacker, row.target, 0) is None,
    ensures
        one_per_front(attacks.push(row)),
{
    lemma_ongoing_from(attacks, row.attacker, row.target, 0);
    let after = attacks.push(row);
    assert forall|i: int, j: int|
        #![trigger after[i], after[j]]
        0 <= i < j < after.len() && after[i].attacker == after[j].attacker && after[i].target
            == after[j].target implies after[i].retreating || after[j].retreating by {
        if j == attacks.len() {
            assert(!goes_on(attacks[i], row.attacker, row.target));
        } else {
            assert(after[i] == attacks[i] && after[j] == attacks[j]);
        }
    }
}

/// An attack that gets other troops or retreats stays the only one on its front, and so do the
/// others.
pub proof fn lemma_change_keeps_one_per_front(attacks: Seq<Attack>, place: int, after: Attack)
    requires
        one_per_front(attacks),
        0 <= place < attacks.len(),
        after.attacker == attacks[place].attacker,
        after.target == attacks[place].target,
        attacks[place].retreating ==> after.retreating,
    ensures
        one_per_front(attacks.update(place, after)),
{
    let result = attacks.update(place, after);
    assert forall|i: int, j: int|
        #![trigger result[i], result[j]]
        0 <= i < j < result.len() && result[i].attacker == result[j].attacker && result[i].target
            == result[j].target implies result[i].retreating || result[j].retreating by {
        assert(attacks[i].retreating || attacks[j].retreating);
    }
}

/// Attacks that end leave the others the only ones on their fronts.
pub proof fn lemma_end_keeps_one_per_front(attacks: Seq<Attack>, place: int)
    requires
        one_per_front(attacks),
        0 <= place < attacks.len(),
    ensures
        one_per_front(attacks.remove(place)),
{
    let result = attacks.remove(place);
    assert forall|i: int, j: int|
        #![trigger result[i], result[j]]
        0 <= i < j < result.len() && result[i].attacker == result[j].attacker && result[i].target
            == result[j].target implies result[i].retreating || result[j].retreating by {
        let a = if i < place {
            i
        } else {
            i + 1
        };
        let b = if j < place {
            j
        } else {
            j + 1
        };
        assert(result[i] == attacks[a] && result[j] == attacks[b]);
    }
}

/// Are these ongoing attacks of two players on each other?
pub open spec fn crosses(a: Attack, b: Attack) -> bool {
    &&& !a.retreating
    &&& !b.retreating
    &&& a.attacker == b.target
    &&& a.target == b.attacker
    &&& a.target != TARGET_WILDERNESS
    &&& b.target != TARGET_WILDERNESS
}

/// Do no two players attack each other?
pub open spec fn none_cross(attacks: Seq<Attack>) -> bool {
    forall|a: Attack, b: Attack|
        #![trigger attacks.contains(a), attacks.contains(b)]
        attacks.contains(a) && attacks.contains(b) ==> !crosses(a, b)
}

/// Those of the first `n` attacks that a launch does not cancel.
pub open spec fn spared(attacks: Seq<Attack>, attacker: u32, target: u32, n: int) -> Seq<Attack>
    decreases n,
{
    if n <= 0 {
        Seq::empty()
    } else if opposes(attacks[n - 1], attacker, target) {
        spared(attacks, attacker, target, n - 1)
    } else {
        spared(attacks, attacker, target, n - 1).push(attacks[n - 1])
    }
}

/// The attacks that stand once a launch has looked at the first `seen` of them and has cancelled
/// those that oppose it.
pub open spec fn standing(attacks: Seq<Attack>, attacker: u32, target: u32, seen: int) -> Seq<
    Attack,
> {
    spared(attacks, attacker, target, seen) + attacks.skip(seen)
}

/// The attacks that a launch spares are attacks, and do not oppose it.
proof fn lemma_spared(attacks: Seq<Attack>, attacker: u32, target: u32, n: int)
    requires
        0 <= n <= attacks.len(),
    ensures
        ({
            let left = spared(attacks, attacker, target, n);
            &&& left.len() <= n
            &&& forall|i: int|
                0 <= i < left.len() ==> attacks.contains(#[trigger] left[i]) && !opposes(
                    left[i],
                    attacker,
                    target,
                )
        }),
    decreases n,
{
    if n > 0 {
        lemma_spared(attacks, attacker, target, n - 1);
        let before = spared(attacks, attacker, target, n - 1);
        let left = spared(attacks, attacker, target, n);
        assert forall|i: int| 0 <= i < left.len() implies attacks.contains(#[trigger] left[i])
            && !opposes(left[i], attacker, target) by {
            if i < before.len() {
                assert(left[i] == before[i]);
            }
        }
    }
}

/// What stands during a launch stood before it, and once no opposing attack is found, nothing that
/// stands opposes the launch.
pub proof fn lemma_standing(attacks: Seq<Attack>, attacker: u32, target: u32, seen: int)
    requires
        0 <= seen <= attacks.len(),
    ensures
        ({
            let left = standing(attacks, attacker, target, seen);
            &&& forall|a: Attack| #[trigger] left.contains(a) ==> attacks.contains(a)
            &&& opposing_from(attacks, attacker, target, seen) is None ==> forall|a: Attack|
                #[trigger] left.contains(a) ==> !opposes(a, attacker, target)
        }),
{
    let left = standing(attacks, attacker, target, seen);
    let before = spared(attacks, attacker, target, seen);
    lemma_spared(attacks, attacker, target, seen);
    lemma_opposing_from(attacks, attacker, target, seen);
    assert forall|a: Attack| #[trigger] left.contains(a) implies attacks.contains(a) && (
    opposing_from(attacks, attacker, target, seen) is None ==> !opposes(a, attacker, target)) by {
        let i = choose|i: int| 0 <= i < left.len() && left[i] == a;
        if i < before.len() {
            assert(before[i] == a);
        } else {
            assert(attacks[seen + i - before.len()] == a);
        }
    }
}

/// Of attacks that do not oppose a launch, all are spared.
proof fn lemma_spared_run(attacks: Seq<Attack>, attacker: u32, target: u32, k: int, n: int)
    requires
        0 <= k <= n <= attacks.len(),
        forall|j: int| k <= j < n ==> !opposes(#[trigger] attacks[j], attacker, target),
    ensures
        spared(attacks, attacker, target, n) == spared(attacks, attacker, target, k)
            + attacks.subrange(k, n),
    decreases n - k,
{
    if k < n {
        lemma_spared_run(attacks, attacker, target, k, n - 1);
        assert(attacks.subrange(k, n) =~= attacks.subrange(k, n - 1).push(attacks[n - 1]));
        assert(!opposes(attacks[n - 1], attacker, target));
        assert(spared(attacks, attacker, target, n) =~= spared(attacks, attacker, target, k)
            + attacks.subrange(k, n));
    } else {
        assert(attacks.subrange(k, n) =~= Seq::empty());
        assert(spared(attacks, attacker, target, n) =~= spared(attacks, attacker, target, k)
            + attacks.subrange(k, n));
    }
}

/// A cancelled attack is the one that a launch takes out of those that stand, and the first of them
/// that opposes it from there on; all others stay.
pub proof fn lemma_cancel_ends_one(
    attacks: Seq<Attack>,
    attacker: u32,
    target: u32,
    seen: int,
    place: int,
)
    requires
        0 <= seen <= attacks.len(),
        opposing_from(attacks, attacker, target, seen) == Some(place),
    ensures
        ({
            let before = standing(attacks, attacker, target, seen);
            let gone = spared(attacks, attacker, target, seen).len() + place - seen;
            &&& 0 <= gone < before.len()
            &&& before[gone] == attacks[place]
            &&& standing(attacks, attacker, target, place + 1) == before.remove(gone)
        }),
{
    lemma_opposing_from(attacks, attacker, target, seen);
    lemma_spared_run(attacks, attacker, target, seen, place);
    let before = standing(attacks, attacker, target, seen);
    let gone = spared(attacks, attacker, target, seen).len() + place - seen;
    assert(before[gone] == attacks[place]);
    assert(standing(attacks, attacker, target, place + 1) =~= before.remove(gone));
}

/// Where no two players attack each other, none do while a launch cancels attacks.
pub proof fn lemma_cancel_keeps_uncrossed(
    attacks: Seq<Attack>,
    attacker: u32,
    target: u32,
    seen: int,
)
    requires
        none_cross(attacks),
        0 <= seen <= attacks.len(),
    ensures
        none_cross(standing(attacks, attacker, target, seen)),
{
    lemma_standing(attacks, attacker, target, seen);
}

/// A new attack is opened only once nothing that stands opposes it, so that no two players attack
/// each other.
pub proof fn lemma_open_keeps_uncrossed(attacks: Seq<Attack>, row: Attack, seen: int)
    requires
        none_cross(attacks),
        0 <= seen <= attacks.len(),
        row.attacker != row.target,
        opposing_from(attacks, row.attacker, row.target, seen) is None,
    ensures
        none_cross(standing(attacks, row.attacker, row.target, seen).push(row)),
{
    let left = standing(attacks, row.attacker, row.target, seen);
    let after = left.push(row);
    lemma_standing(attacks, row.attacker, row.target, seen);
    assert forall|a: Attack| #[trigger] after.contains(a) implies left.contains(a) || a == row by {
        let i = choose|i: int| 0 <= i < after.len() && after[i] == a;
        if i < left.len() {
            assert(left[i] == a);
        }
    }
    assert forall|a: Attack, b: Attack|
        #![trigger after.contains(a), after.contains(b)]
        after.contains(a) && after.contains(b) implies !crosses(a, b) by {
        if left.contains(a) && left.contains(b) {
            assert(attacks.contains(a) && attacks.contains(b));
        }
    }
}

/// An attack that gets other troops or retreats leaves players that do not attack each other so.
pub proof fn lemma_change_keeps_uncrossed(attacks: Seq<Attack>, place: int, after: Attack)
    requires
        none_cross(attacks),
        0 <= place < attacks.len(),
        after.attacker == attacks[place].attacker,
        after.target == attacks[place].target,
        attacks[place].retreating ==> after.retreating,
    ensures
        none_cross(attacks.update(place, after)),
{
    let result = attacks.update(place, after);
    assert(attacks.contains(attacks[place]));
    assert forall|a: Attack| #[trigger] result.contains(a) implies attacks.contains(a) || a
        == after by {
        let i = choose|i: int| 0 <= i < result.len() && result[i] == a;
        if i != place {
            assert(attacks[i] == a);
        }
    }
    assert forall|a: Attack, b: Attack|
        #![trigger result.contains(a), result.contains(b)]
        result.contains(a) && result.contains(b) implies !crosses(a, b) by {
        let x = if a == after {
            attacks[place]
        } else {
            a
        };
        let y = if b == after {
            attacks[place]
        } else {
            b
        };
        assert(attacks.contains(x) && attacks.contains(y));
    }
}

/// A launch that merges with an attack under way, or is absorbed by an opposing one, changes only the
/// troops of that attack: still no two players attack each other, and an attack that the launch
/// merges with is opposed by nothing that stands.
pub proof fn lemma_merge_or_absorb_keeps_uncrossed(
    attacks: Seq<Attack>,
    attacker: u32,
    target: u32,
    seen: int,
    place: int,
    troops: Quantity,
)
    requires
        none_cross(attacks),
        0 <= seen <= attacks.len(),
        0 <= place < attacks.len(),
    ensures
        ({
            let changed = attacks.update(place, Attack { troops, ..attacks[place] });
            let left = standing(changed, attacker, target, seen);
            &&& none_cross(left)
            &&& opposing_from(attacks, attacker, target, seen) is None ==> forall|a: Attack|
                #[trigger] left.contains(a) ==> !opposes(a, attacker, target)
        }),
{
    let changed = attacks.update(place, Attack { troops, ..attacks[place] });
    lemma_change_keeps_uncrossed(attacks, place, Attack { troops, ..attacks[place] });
    lemma_standing(changed, attacker, target, seen);
    lemma_opposing_from(attacks, attacker, target, seen);
    lemma_opposing_from(changed, attacker, target, seen);
    if opposing_from(attacks, attacker, target, seen) is None
        && opposing_from(changed, attacker, target, seen) is Some {
        let i = opposing_from(changed, attacker, target, seen)->Some_0;
        assert(opposes(attacks[i], attacker, target));
    }
}

/// Attacks that end leave players that do not attack each other so.
pub proof fn lemma_end_keeps_uncrossed(attacks: Seq<Attack>, place: int)
    requires
        none_cross(attacks),
        0 <= place < attacks.len(),
    ensures
        none_cross(attacks.remove(place)),
{
    let result = attacks.remove(place);
    assert forall|a: Attack| #[trigger] result.contains(a) implies attacks.contains(a) by {
        let i = choose|i: int| 0 <= i < result.len() && result[i] == a;
        let j = if i < place {
            i
        } else {
            i + 1
        };
        assert(attacks[j] == a);
    }
}

/// The tiles and the priorities of entries.
fn split_entries(entries: &Vec<(u32, i32)>) -> (r: (Vec<u32>, Vec<i32>))
    ensures
        r.0@ == tiles_of(entries@),
        r.1@ == entries@.map_values(|e: (u32, i32)| e.1),
{
    let mut tiles: Vec<u32> = Vec::new();
    let mut priorities: Vec<i32> = Vec::new();
    let mut i: usize = 0;
    while i < entries.len()
        invariant
            i <= entries@.len(),
            tiles@.len() == i,
            priorities@.len() == i,
            forall|j: int| 0 <= j < i ==> tiles@[j] == entries@[j].0,
            forall|j: int| 0 <= j < i ==> priorities@[j] == entries@[j].1,
        decreases entries@.len() - i,
    {
        tiles.push(entries[i].0);
        priorities.push(entries[i].1);
        i += 1;
    }
    assert(tiles@ =~= tiles_of(entries@));
    assert(priorities@ =~= entries@.map_values(|e: (u32, i32)| e.1));
    (tiles, priorities)
}

/// The attack of a player on a target that goes on, if there is one.
fn find_ongoing(attacks: &Vec<Attack>, attacker: u32, target: u32) -> (r: Option<usize>)
    ensures
        match r {
            Some(i) => ongoing_from(attacks@, attacker, target, 0) == Some(i as int) && i
                < attacks@.len(),
            None => ongoing_from(attacks@, attacker, target, 0) is None,
        },
{
    let mut i: usize = 0;
    while i < attacks.len()
        invariant
            i <= attacks@.len(),
            ongoing_from(attacks@, attacker, target, 0) == ongoing_from(
                attacks@,
                attacker,
                target,
                i as int,
            ),
        decreases attacks@.len() - i,
    {
        let a: &Attack = &attacks[i];
        if a.attacker == attacker && a.target == target && !a.retreating {
            return Some(i);
        }
        i += 1;
    }
    None
}

/// What comes of a client's calling an attack off: the answer, and the attacks then.
pub open spec fn called_off(
    players: Seq<Player>,
    attacks: Seq<Attack>,
    sender: Identity,
    target: u32,
) -> (Result<usize, GameError>, Seq<Attack>) {
    match human_place(players, sender) {
        None => (Err(GameError::NotInMatch), attacks),
        Some(i) => match ongoing_from(attacks, players[i].id, target, 0) {
            None => (Err(GameError::NoActiveAttack), attacks),
            Some(place) => (
                Ok(place as usize),
                attacks.update(place, Attack { retreating: true, ..attacks[place] }),
            ),
        },
    }
}

/// A client's request to call an attack off: the place of the attack, which is then retreating.
pub fn retreat_attack(
    players: &Vec<Player>,
    attacks: &mut Vec<Attack>,
    sender: Identity,
    target_player: u32,
) -> (r: Result<usize, GameError>)
    ensures
        (r, final(attacks)@) == called_off(players@, old(attacks)@, sender, target_player),
{
    let attacker_id: u32 = match find_human(players, sender) {
        Some(i) => players[i].id,
        None => {
            return Err(GameError::NotInMatch);
        },
    };
    match find_ongoing(attacks, attacker_id, target_player) {
        Some(place) => {
            attacks[place].retreating = true;
            Ok(place)
        },
        None => Err(GameError::NoActiveAttack),
    }
}

} // verus!
