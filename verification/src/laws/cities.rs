//! What cities cost, who may build them, and how players grow.

use vstd::prelude::*;

use crate::economy::{
    city_refusal, gold_after, grown_player, grows, has_city, lemma_gold_limit, lemma_income_exact,
    lemma_price, lemma_spacing_small, new_city, price_of_city, site_refusal, with_city,
};
use crate::error::GameError;
use crate::grid::lemma_tile_point;
use crate::players::{human_place, lemma_human_from};
use crate::quantity::Quantity;
use crate::rounding::{lemma_rounded_exact, lemma_rounded_monotone, lemma_rounded_near, rounded};
use crate::tables::{City, Identity, Match, Player, TileChunk};

verus! {

/// What the city after so many others costs: 125,000 for the first, 250,000 for the second, 500,000 for
/// the third, and 1,000,000 for every later one.
pub open spec fn tariff(cities: u32) -> int {
    if cities == 0 {
        125_000
    } else if cities == 1 {
        250_000
    } else if cities == 2 {
        500_000
    } else {
        1_000_000
    }
}

/// Below 2^24 gold, a player that builds a city has exactly as much less gold as that city costs. With
/// more, the difference is off by at most 128, by rounding. The player then has one city and one level
/// more and the new limit of troops, and nothing else changes.
pub proof fn lemma_city_is_paid(player: Player, max_troops: Quantity)
    requires
        tariff(player.city_count) <= player.gold,
        player.city_count < u32::MAX,
        player.city_levels < u32::MAX,
    ensures
        ({
            let after = with_city(player, max_troops);
            let left = player.gold - tariff(player.city_count);
            &&& player.gold < 0x100_0000 ==> after.gold == left
            &&& left - 128 <= after.gold <= left + 128
            &&& after.gold == rounded(left as nat)
            &&& after.city_count == player.city_count + 1
            &&& after.city_levels == player.city_levels + 1
            &&& after.max_troops == max_troops
            &&& after == (Player {
                gold: after.gold,
                city_count: after.city_count,
                city_levels: after.city_levels,
                max_troops: after.max_troops,
                ..player
            })
        }),
{
    let left = player.gold - tariff(player.city_count);
    lemma_price(player.city_count);
    lemma_rounded_near(left as nat);
    lemma_spacing_small(left as nat);
    if left < 0x100_0000 {
        lemma_rounded_exact(left as nat);
    }
}

/// The price of a city is the tariff.
pub proof fn lemma_price_is_tariff(cities: u32)
    ensures
        price_of_city(cities) == tariff(cities),
{
    lemma_price(cities);
}

/// Does the owner byte of the tile, in the row of its chunk, name the player?
pub open spec fn byte_names(row: Option<&TileChunk>, tile: u32, player: u32) -> bool {
    let cell = (tile as int / 1350 % 32) * 32 + tile as int % 1350 % 32;
    &&& tile < 911_250
    &&& row is Some
    &&& cell < row->Some_0.owners@.len()
    &&& row->Some_0.owners@[cell] == player
    &&& player != 255
}

/// A city is built if and only if the match is on, the client plays in it and lives, the tile is the
/// player's, no city stands there, and the player can pay. Each refusal says which of these fails first.
pub proof fn lemma_city_answer(
    m: Option<&Match>,
    players: Seq<Player>,
    cities: Seq<City>,
    row: Option<&TileChunk>,
    sender: Identity,
    tile: u32,
)
    ensures
        ({
            let answer = city_refusal(m, players, cities, row, sender, tile);
            let on = m is Some && m->Some_0.phase == 2;
            let place = human_place(players, sender);
            let p = players[place->Some_0];
            let in_it = on && place is Some;
            let own = in_it && p.alive && byte_names(row, tile, p.id);
            let built = exists|i: int| 0 <= i < cities.len() && (#[trigger] cities[i]).tile == tile;
            &&& answer == Some(GameError::MatchNotFound) <==> m is None
            &&& answer == Some(GameError::MatchNotInPlay) <==> m is Some && m->Some_0.phase != 2
            &&& answer == Some(GameError::NotInMatch) <==> on && place is None
            &&& answer == Some(GameError::Eliminated) <==> in_it && !p.alive
            &&& answer == Some(GameError::MustBuildOnOwnTile) <==> in_it && p.alive && !byte_names(
                row,
                tile,
                p.id,
            )
            &&& answer == Some(GameError::CityAlreadyExists) <==> own && built
            &&& answer == Some(GameError::NotEnoughGold) <==> own && !built && p.gold < tariff(
                p.city_count,
            )
            &&& answer is None <==> own && !built && p.gold >= tariff(p.city_count)
            &&& site_refusal(m, players, cities, row, sender, tile) is None <==> own && !built
        }),
{
    let p = players[human_place(players, sender)->Some_0];
    lemma_price(p.city_count);
    assert(has_city(cities, tile) <==> exists|i: int|
        0 <= i < cities.len() && (#[trigger] cities[i]).tile == tile);
    if tile < 911_250 {
        lemma_tile_point(tile as int);
    }
}

/// The client's player is the first row with the client's identity that is no bot.
pub proof fn lemma_client_is_first(players: Seq<Player>, sender: Identity, place: int)
    requires
        0 <= place < players.len(),
        players[place].identity == sender,
        !players[place].is_bot,
    ensures
        ({
            let found = human_place(players, sender);
            &&& found is Some
            &&& 0 <= found->Some_0 <= place
            &&& players[found->Some_0].identity == sender
            &&& !players[found->Some_0].is_bot
        }),
{
    lemma_human_from(players, sender, 0);
}

/// A client that is found plays: there is such a row, and it is no bot's.
pub proof fn lemma_client_plays(players: Seq<Player>, sender: Identity)
    ensures
        human_place(players, sender) is Some <==> exists|i: int|
            0 <= i < players.len() && (#[trigger] players[i]).identity == sender
                && !players[i].is_bot,
{
    lemma_human_from(players, sender, 0);
    if human_place(players, sender) is Some {
        let i = human_place(players, sender)->Some_0;
        assert(players[i].identity == sender && !players[i].is_bot);
    }
}

/// In a step a living, spawned player gets the new limit of troops, the smaller of the grown troops and
/// that limit, and ten gold, or five if it is a bot, up to 2^24 gold. Nothing else changes, and nothing
/// at all for others.
pub proof fn lemma_growth(player: Player, max_troops: Quantity, grown: Quantity)
    requires
        player.gold <= 0xFF_FFF0,
        grown.bits <= 0x7F80_0000,
        max_troops.bits <= 0x7F80_0000,
    ensures
        ({
            let after = grown_player(player, max_troops, grown);
            &&& player.alive && player.spawn_tile is Some ==> {
                &&& after.max_troops == max_troops
                &&& after.troops.bits == if grown.bits <= max_troops.bits {
                    grown.bits
                } else {
                    max_troops.bits
                }
                &&& after.gold == player.gold + if player.is_bot {
                    5int
                } else {
                    10int
                }
                &&& after == (Player {
                    max_troops,
                    troops: after.troops,
                    gold: after.gold,
                    ..player
                })
            }
            &&& !player.alive || player.spawn_tile is None ==> after == player
        }),
{
    lemma_rounded_exact((player.gold + 10) as nat);
    lemma_rounded_exact((player.gold + 5) as nat);
}

/// So it does with more gold, in single precision.
pub proof fn lemma_growth_of_riches(player: Player, max_troops: Quantity, grown: Quantity)
    requires
        player.alive,
        player.spawn_tile is Some,
        player.gold <= 0xFFFF_FF00,
    ensures
        grown_player(player, max_troops, grown) == (Player {
            max_troops,
            troops: grown_player(player, max_troops, grown).troops,
            gold: grown_player(player, max_troops, grown).gold,
            ..player
        }),
        grown_player(player, max_troops, grown).gold == rounded(
            (player.gold + if player.is_bot {
                5int
            } else {
                10int
            }) as nat,
        ),
{
    lemma_gold_limit();
    lemma_rounded_monotone((player.gold + 10) as nat, 0xFFFF_FF0A);
    lemma_rounded_monotone((player.gold + 5) as nat, 0xFFFF_FF0A);
}

/// A second has ten steps at the normal speed: it earns a player 100 gold and a bot 50, as long as
/// single precision is exact.
pub proof fn lemma_gold_a_second(gold: u32)
    requires
        gold <= 0xFF_FF00,
    ensures
        gold_after(gold, false, 10) == gold + 100,
        gold_after(gold, true, 10) == gold + 50,
{
    lemma_income_exact(gold, false, 10);
    lemma_income_exact(gold, true, 10);
}

/// A new city stands finished on its tile, at level one, and belongs to its builder.
pub proof fn lemma_new_city(match_id: u64, owner: u32, tile: u32)
    ensures
        ({
            let city = new_city(match_id, owner, tile);
            &&& city.id == 0
            &&& city.match_id == match_id
            &&& city.owner_id == owner
            &&& city.tile == tile
            &&& city.level == 1
            &&& !city.under_construction
            &&& city.build_progress == 0
        }),
{
}

/// Players grow while they live and have spawned, and only then.
pub proof fn lemma_grows(player: Player)
    ensures
        !player.alive || player.spawn_tile is None ==> !grows(player),
        player.alive && player.spawn_tile is Some ==> grows(player),
{
}

} // verus!
