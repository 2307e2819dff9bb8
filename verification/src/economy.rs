//! Gold, cities and the growth of troops.

use vstd::arithmetic::power2::{lemma2_to64, lemma_pow2_strictly_increases, pow2};
use vstd::prelude::*;

use crate::chunks::{get_owner, row_owner};
use crate::error::GameError;
use crate::grid::{SIM_TILES, SIM_W};
use crate::players::{find_human, human_place};
use crate::quantity::Quantity;
use crate::rounding::{
    lemma_rounded_exact, lemma_rounded_monotone, lemma_rounded_near, round_whole, rounded, spacing,
};
use crate::tables::{City, Identity, Match, Player, TileChunk, PHASE_PLAYING};

verus! {

/// What a player earns in a step.
pub const GOLD_PER_TICK_HUMAN: u32 = 10;

/// What a bot earns in a step.
pub const GOLD_PER_TICK_BOT: u32 = 5;

/// The price of the first city.
pub const CITY_COST_BASE: u32 = 125_000;

/// The highest price of a city.
pub const CITY_COST_MAX: u32 = 1_000_000;

/// The most gold that a row can hold: the largest number below 2^32 that single precision has.
pub const GOLD_LIMIT: u32 = 0xFFFF_FF00;

/// The price of a city after `nth` others: it doubles with every city, up to a limit.
pub open spec fn price_of_city(nth: u32) -> int {
    if CITY_COST_BASE * pow2(nth as nat) < CITY_COST_MAX {
        CITY_COST_BASE * pow2(nth as nat)
    } else {
        CITY_COST_MAX as int
    }
}

/// Gold plus some income, in single precision.
pub open spec fn earned(gold: u32, income: u32) -> u32 {
    rounded((gold + income) as nat) as u32
}

/// Gold less a price, in single precision.
pub open spec fn spent(gold: u32, price: int) -> u32 {
    rounded((gold - price) as nat) as u32
}

/// The income of a player or a bot.
pub open spec fn income_of(is_bot: bool) -> u32 {
    if is_bot {
        GOLD_PER_TICK_BOT
    } else {
        GOLD_PER_TICK_HUMAN
    }
}

/// Does a player grow in a step?
pub open spec fn grows(player: Player) -> bool {
    player.alive && player.spawn_tile is Some
}

/// The row of a player after a step's growth: `grown` are the troops before the limit.
pub open spec fn grown_player(player: Player, max_troops: Quantity, grown: Quantity) -> Player {
    if grows(player) {
        Player {
            max_troops,
            troops: grown.at_most_spec(max_troops),
            gold: earned(player.gold, income_of(player.is_bot)),
            ..player
        }
    } else {
        player
    }
}

/// Does some city stand on a tile?
pub open spec fn has_city(cities: Seq<City>, tile: u32) -> bool {
    exists|i: int| 0 <= i < cities.len() && (#[trigger] cities[i]).tile == tile
}

/// The row of a new city.
pub open spec fn new_city(match_id: u64, owner_id: u32, tile: u32) -> City {
    City {
        id: 0,
        match_id,
        owner_id,
        tile,
        level: 1,
        under_construction: false,
        build_progress: 0,
    }
}

/// Do no two cities stand on the same tile?
pub open spec fn one_per_tile(cities: Seq<City>) -> bool {
    forall|i: int, j: int|
        0 <= i < j < cities.len() ==> (#[trigger] cities[i]).tile != (#[trigger] cities[j]).tile
}

/// Why a client cannot build on a tile at any price, if so. `row` is that of the tile's chunk.
pub open spec fn site_refusal(
    m: Option<&Match>,
    players: Seq<Player>,
    cities: Seq<City>,
    row: Option<&TileChunk>,
    sender: Identity,
    tile: u32,
) -> Option<GameError> {
    if m is None {
        Some(GameError::MatchNotFound)
    } else if m->Some_0.phase != PHASE_PLAYING {
        Some(GameError::MatchNotInPlay)
    } else if human_place(players, sender) is None {
        Some(GameError::NotInMatch)
    } else {
        let p = players[human_place(players, sender)->Some_0];
        if !p.alive {
            Some(GameError::Eliminated)
        } else if !owns_tile(row, tile, p.id) {
            Some(GameError::MustBuildOnOwnTile)
        } else if has_city(cities, tile) {
            Some(GameError::CityAlreadyExists)
        } else {
            None
        }
    }
}

/// Why a client cannot build a city on a tile, if so: the site, or the price.
pub open spec fn city_refusal(
    m: Option<&Match>,
    players: Seq<Player>,
    cities: Seq<City>,
    row: Option<&TileChunk>,
    sender: Identity,
    tile: u32,
) -> Option<GameError> {
    let p = players[human_place(players, sender)->Some_0];
    match site_refusal(m, players, cities, row, sender, tile) {
        Some(error) => Some(error),
        None => if p.gold < price_of_city(p.city_count) {
            Some(GameError::NotEnoughGold)
        } else {
            None
        },
    }
}

/// Does a player hold a tile, in the row of its chunk?
pub open spec fn owns_tile(row: Option<&TileChunk>, tile: u32, player: u32) -> bool {
    tile < SIM_TILES && row is Some && row_owner(
        row->Some_0@,
        tile as int % SIM_W as int,
        tile as int / SIM_W as int,
    ) == Some(player)
}

/// The row of a player that has paid for a city.
pub open spec fn with_city(player: Player, max_troops: Quantity) -> Player {
    Player {
        gold: spent(player.gold, price_of_city(player.city_count)),
        city_count: (player.city_count + 1) as u32,
        city_levels: (player.city_levels + 1) as u32,
        max_troops,
        ..player
    }
}

/// What the powers of two make of the price.
pub proof fn lemma_price(nth: u32)
    ensures
        price_of_city(nth) == (if nth == 0 {
            125_000int
        } else if nth == 1 {
            250_000
        } else if nth == 2 {
            500_000
        } else {
            1_000_000
        }),
{
    lemma2_to64();
    if nth > 3 {
        lemma_pow2_strictly_increases(3, nth as nat);
    }
}

/// The price of a city after `nth` others.
pub fn city_cost(nth: u32) -> (r: u32)
    requires
        nth < 32,
    ensures
        r == price_of_city(nth),
        r == (if nth == 0 {
            125_000int
        } else if nth == 1 {
            250_000
        } else if nth == 2 {
            500_000
        } else {
            1_000_000
        }),
{
    proof {
        lemma_price(nth);
    }
    if nth == 0 {
        CITY_COST_BASE
    } else if nth == 1 {
        2 * CITY_COST_BASE
    } else if nth == 2 {
        4 * CITY_COST_BASE
    } else {
        CITY_COST_MAX
    }
}

/// The limit is a number of single precision, and an income does not lead past it.
pub proof fn lemma_gold_limit()
    ensures
        rounded(0xFFFF_FF0A) == 0xFFFF_FF00,
{
    reveal_with_fuel(spacing, 10);
    assert(spacing(0xFFFF_FF0A) == 256);
}

/// Gold plus some income.
fn earn(gold: u32, income: u32) -> (r: u32)
    requires
        gold <= GOLD_LIMIT,
        income <= 10,
    ensures
        r == earned(gold, income),
        r <= GOLD_LIMIT,
{
    proof {
        lemma_gold_limit();
        lemma_rounded_monotone((gold + income) as nat, 0xFFFF_FF0A);
    }
    round_whole(gold as u128 + income as u128) as u32
}

/// A step's growth of a player: troops up to the limit, and gold. `grown` are the troops before
/// the limit. Players that are dead or have not spawned stay as they are. Returns whether the row
/// has changed.
pub fn regen_player(player: &mut Player, max_troops: Quantity, grown: Quantity) -> (r: bool)
    requires
        old(player).gold <= GOLD_LIMIT,
    ensures
        *final(player) == grown_player(*old(player), max_troops, grown),
        r == grows(*old(player)),
        final(player).gold <= GOLD_LIMIT,
{
    if !player.alive || player.spawn_tile.is_none() {
        return false;
    }
    player.max_troops = max_troops;
    player.troops = grown.at_most(max_troops);
    let income: u32 = if player.is_bot { GOLD_PER_TICK_BOT } else { GOLD_PER_TICK_HUMAN };
    player.gold = earn(player.gold, income);
    true
}

/// Does some city stand on a tile?
fn find_city(cities: &Vec<City>, tile: u32) -> (r: bool)
    ensures
        r == has_city(cities@, tile),
{
    let mut i: usize = 0;
    while i < cities.len()
        invariant
            i <= cities@.len(),
            forall|j: int| 0 <= j < i ==> (#[trigger] cities@[j]).tile != tile,
        decreases cities@.len() - i,
    {
        if cities[i].tile == tile {
            return true;
        }
        i += 1;
    }
    false
}

/// Looks at the site of a city: the match and the place of the client's player, if the client may
/// build there.
pub fn check_site(
    m: Option<&Match>,
    players: &Vec<Player>,
    cities: &Vec<City>,
    row: Option<&TileChunk>,
    sender: Identity,
    tile: u32,
) -> (r: Result<(u64, usize), GameError>)
    ensures
        match site_refusal(m, players@, cities@, row, sender, tile) {
            Some(error) => r == Err::<(u64, usize), GameError>(error),
            None => {
                &&& r is Ok
                &&& r->Ok_0.0 == m->Some_0.id
                &&& human_place(players@, sender) == Some(r->Ok_0.1 as int)
                &&& r->Ok_0.1 < players@.len()
            },
        },
{
    let m: &Match = match m {
        Some(m) => m,
        None => {
            return Err(GameError::MatchNotFound);
        },
    };
    if m.phase != PHASE_PLAYING {
        return Err(GameError::MatchNotInPlay);
    }
    let place: usize = match find_human(players, sender) {
        Some(place) => place,
        None => {
            return Err(GameError::NotInMatch);
        },
    };
    if !players[place].alive {
        return Err(GameError::Eliminated);
    }
    match get_owner(row, tile % SIM_W, tile / SIM_W) {
        Some(owner) => {
            if owner != players[place].id {
                return Err(GameError::MustBuildOnOwnTile);
            }
        },
        None => {
            return Err(GameError::MustBuildOnOwnTile);
        },
    }
    if find_city(cities, tile) {
        return Err(GameError::CityAlreadyExists);
    }
    Ok((m.id, place))
}

/// A client's request to build a city on a tile: the place of the player that has paid for it,
/// and the city. `row` is that of the tile's chunk, and `max_troops` the most troops that the
/// player can have with one city more.
pub fn build_city(
    m: Option<&Match>,
    players: &mut Vec<Player>,
    cities: &Vec<City>,
    row: Option<&TileChunk>,
    sender: Identity,
    tile: u32,
    max_troops: Quantity,
) -> (r: Result<(usize, City), GameError>)
    requires
        site_refusal(m, old(players)@, cities@, row, sender, tile) is None ==> old(
            players,
        )@[human_place(old(players)@, sender)->Some_0].city_count < 32,
        city_refusal(m, old(players)@, cities@, row, sender, tile) is None ==> old(
            players,
        )@[human_place(old(players)@, sender)->Some_0].city_levels < u32::MAX,
    ensures
        match city_refusal(m, old(players)@, cities@, row, sender, tile) {
            Some(error) => r == Err::<(usize, City), GameError>(error) && final(players)@ == old(
                players,
            )@,
            None => {
                let place = human_place(old(players)@, sender)->Some_0;
                let before = old(players)@[place];
                &&& r == Ok::<(usize, City), GameError>(
                    (place as usize, new_city(m->Some_0.id, before.id, tile)),
                )
                &&& final(players)@ == old(players)@.update(place, with_city(before, max_troops))
                &&& final(players)@[place].gold <= before.gold
                &&& one_per_tile(cities@) ==> one_per_tile(cities@.push(r->Ok_0.1))
            },
        },
{
    let (match_id, place): (u64, usize) = match check_site(m, players, cities, row, sender, tile) {
        Ok(site) => site,
        Err(error) => {
            return Err(error);
        },
    };
    let owner_id: u32 = players[place].id;
    let cost: u32 = city_cost(players[place].city_count);
    let gold: u32 = players[place].gold;
    if gold < cost {
        return Err(GameError::NotEnoughGold);
    }
    proof {
        lemma_spent_is_less(gold, cost);
    }
    players[place].gold = round_whole((gold - cost) as u128) as u32;
    players[place].city_count += 1;
    players[place].city_levels += 1;
    players[place].max_troops = max_troops;
    let city: City = City {
        id: 0,
        match_id,
        owner_id,
        tile,
        level: 1,
        under_construction: false,
        build_progress: 0,
    };
    assert(players@ =~= old(players)@.update(
        place as int,
        with_city(old(players)@[place as int], max_troops),
    ));
    Ok((place, city))
}

/// What is left of some gold after a price of at least that of the first city is less than it
/// was, also after rounding.
proof fn lemma_spent_is_less(gold: u32, cost: u32)
    requires
        CITY_COST_BASE <= cost <= gold,
    ensures
        rounded((gold - cost) as nat) <= gold,
{
    let left = (gold - cost) as nat;
    lemma_rounded_near(left);
    lemma_spacing_small(left);
}

/// Below 2^32, numbers of single precision lie at most 256 apart.
pub proof fn lemma_spacing_small(n: nat)
    requires
        n < 0x1_0000_0000,
    ensures
        spacing(n) <= 256,
{
    reveal_with_fuel(spacing, 10);
}

/// The gold of a player or a bot that earns in `n` steps and spends nothing.
pub open spec fn gold_after(gold: u32, is_bot: bool, n: nat) -> u32
    decreases n,
{
    if n == 0 {
        gold
    } else {
        earned(gold_after(gold, is_bot, (n - 1) as nat), income_of(is_bot))
    }
}

/// Up to 2^24 the income is exact: ten gold a step for a player and five for a bot. A second has
/// ten steps at the normal speed, so that is 100 a second for a player and 50 for a bot.
pub proof fn lemma_income_exact(gold: u32, is_bot: bool, n: nat)
    requires
        gold + n * income_of(is_bot) < 0x100_0000,
    ensures
        gold_after(gold, is_bot, n) == gold + n * income_of(is_bot),
    decreases n,
{
    let income = income_of(is_bot) as int;
    if n > 0 {
        let before = (n - 1) as nat;
        assert(n * income == before * income + income) by (nonlinear_arith)
            requires
                n == before + 1,
        ;
        lemma_income_exact(gold, is_bot, before);
        let sum = gold_after(gold, is_bot, before) + income;
        assert(sum == gold + n * income);
        lemma_rounded_exact(sum as nat);
    } else {
        assert(n * income == 0) by (nonlinear_arith)
            requires
                n == 0,
        ;
    }
}

} // verus!
