//! Who may join, what a new match and a new player are, and what the map of a match starts as.

use vstd::prelude::*;

use crate::error::GameError;
use crate::grid::{baked_terrain, chunk_key, lemma_chunk_key};
use crate::lobby::{
    add_refusal, bot_identity, chat_answer, chat_millis, created, fresh_chunk, humans_among,
    join_refusal, land_tiles, left_match, new_player, next_color, speaker_from, speed_answer,
    start_refusal, started_on, valid_difficulty, valid_speed, Departure, DEFAULT_SPEED,
};
use crate::players::{human_place, lemma_human_from};
use crate::tables::{Identity, Match, Player};

verus! {

/// The players that are no bots are those that are left when bots are taken out.
pub proof fn lemma_humans(players: Seq<Player>, n: int)
    requires
        0 <= n <= players.len(),
    ensures
        humans_among(players, n) == players.take(n).filter(|p: Player| !p.is_bot).len(),
    decreases n,
{
    reveal(Seq::filter);
    if n > 0 {
        lemma_humans(players, n - 1);
        assert(players.take(n).drop_last() =~= players.take(n - 1));
        assert(players.take(n).last() == players[n - 1]);
    } else {
        assert(players.take(0) =~= Seq::empty());
    }
}

/// A client joins if and only if the match is in its lobby and has fewer than thirteen players, fewer
/// than eight of them no bots. A bot joins if and only if the match is in its lobby and has fewer than
/// thirteen players. Each refusal says which of these fails first.
pub proof fn lemma_join_answer(m: Option<&Match>, players: Seq<Player>)
    requires
        players.len() <= u32::MAX,
    ensures
        ({
            let joins = join_refusal(m, players);
            let adds = add_refusal(m, players.len() as u32);
            let open = m is Some && m->Some_0.phase == 0;
            let humans = players.filter(|p: Player| !p.is_bot).len();
            &&& joins is None <==> open && players.len() < 13 && humans < 8
            &&& joins == Some(GameError::MatchFull) <==> open && (players.len() >= 13 || humans >= 8)
            &&& joins == Some(GameError::MatchNotFound) <==> m is None
            &&& joins == Some(GameError::MatchAlreadyStarted) <==> m is Some && m->Some_0.phase != 0
            &&& adds is None <==> open && players.len() < 13
            &&& adds == Some(GameError::MatchFull) <==> open && players.len() >= 13
            &&& adds == Some(GameError::MatchNotFound) <==> m is None
            &&& adds == Some(GameError::MatchAlreadyStarted) <==> m is Some && m->Some_0.phase != 0
        }),
{
    lemma_humans(players, players.len() as int);
    assert(players.take(players.len() as int) =~= players);
}

/// A new player lives, has the name, identity, match and colour that it came with, and has nothing.
pub proof fn lemma_new_player(
    match_id: u64,
    identity: Identity,
    name: Seq<char>,
    color: u8,
    is_bot: bool,
)
    ensures
        ({
            let p = new_player(match_id, identity, name, color, is_bot);
            &&& p.id == 0
            &&& p.match_id == match_id
            &&& p.identity == identity
            &&& p.name == name
            &&& p.color == color
            &&& p.is_bot == is_bot
            &&& p.alive
            &&& p.spawn_tile is None
            &&& p.troops.bits == 0
            &&& p.max_troops.bits == 0
            &&& p.gold == 0
            &&& p.tiles == 0
            &&& p.traitor_until == 0
            &&& p.city_count == 0
            &&& p.city_levels == 0
            &&& p.owned_chunks.len() == 0
            &&& p.next_attack_tick == 0
        }),
        bot_identity().hi == 0,
        bot_identity().lo == 0,
{
}

/// The speeds on offer are the quarters that make a quarter, half, one, two and four times the normal
/// speed; a match starts at the normal one.
pub proof fn lemma_speeds(speed: u8)
    ensures
        valid_speed(speed) <==> speed == 1 || speed == 2 || speed == 4 || speed == 8 || speed == 16,
        DEFAULT_SPEED == 4,
{
}

/// A client that leaves in the lobby takes its row with it, and all other rows stay as they are. A client
/// that leaves later, in whatever phase, stays with its tiles, dead and without troops, and nothing else
/// changes. Who is not in the match leaves nothing behind.
pub proof fn lemma_leaving(m: Option<&Match>, players: Seq<Player>, sender: Identity)
    ensures
        ({
            let (answer, after) = left_match(m, players, sender);
            let place = human_place(players, sender);
            &&& m is None ==> answer == Err::<Departure, GameError>(GameError::MatchNotFound)
                && after == players
            &&& m is Some && place is None ==> answer == Err::<Departure, GameError>(
                GameError::NotInMatch,
            ) && after == players
            &&& m is Some && place is Some ==> {
                let i = place->Some_0;
                &&& m->Some_0.phase == 0 ==> {
                    &&& answer == Ok::<Departure, GameError>(
                        Departure::Removed { id: players[i].id },
                    )
                    &&& after.len() == players.len() - 1
                    &&& forall|j: int| 0 <= j < i ==> #[trigger] after[j] == players[j]
                    &&& forall|j: int| i <= j < after.len() ==> #[trigger] after[j] == players[j + 1]
                }
                &&& m->Some_0.phase != 0 ==> {
                    &&& answer == Ok::<Departure, GameError>(
                        Departure::Eliminated { place: i as usize },
                    )
                    &&& after.len() == players.len()
                    &&& forall|j: int|
                        0 <= j < after.len() && j != i ==> #[trigger] after[j] == players[j]
                    &&& !after[i].alive
                    &&& after[i].troops.bits == 0
                    &&& after[i] == (Player {
                        alive: false,
                        troops: after[i].troops,
                        ..players[i]
                    })
                }
            }
        }),
{
    lemma_human_from(players, sender, 0);
}

/// The map of a match starts as it was baked: a chunk has its place and id, every tile is unclaimed, and
/// every cell has the terrain of its tile, ocean off the map.
pub proof fn lemma_fresh_chunk(match_id: u64, terrain: Seq<u8>, index: int, cell: int)
    requires
        0 <= index < 946,
        0 <= cell < 1024,
    ensures
        ({
            let row = fresh_chunk(match_id, terrain, index);
            let tx = (index % 43) * 32 + cell % 32;
            let ty = (index / 43) * 32 + cell / 32;
            &&& row.id as int % 0x1_0000_0000 == index
            &&& row.id as int / 0x1_0000_0000 == match_id as int % 0x1_0000_0000
            &&& row.match_id == match_id
            &&& row.chunk_x == index % 43
            &&& row.chunk_y == index / 43
            &&& row.owners.len() == 1024
            &&& row.terrain.len() == 1024
            &&& row.owners[cell] == 255
            &&& row.terrain[cell] == if tx < 1350 && ty < 675 {
                terrain[ty * 1350 + tx]
            } else {
                0
            }
        }),
{
    lemma_chunk_key(match_id, index);
    assert(chunk_key(match_id, index) <= u64::MAX);
}

/// A tile of the map counts as land, whatever its kind, if and only if it is no ocean.
pub proof fn lemma_land(terrain: Seq<u8>, t: int)
    ensures
        land_tiles(terrain).contains(t) <==> 0 <= t < terrain.len() && terrain[t] != 0,
{
}

/// The baked terrain of a point is the byte at its row-major place, and ocean off the map.
pub proof fn lemma_baked(terrain: Seq<u8>, tx: int, ty: int)
    ensures
        0 <= tx < 1350 && 0 <= ty < 675 ==> baked_terrain(terrain, tx, ty) == terrain[ty * 1350
            + tx],
        !(0 <= tx < 1350 && 0 <= ty < 675) ==> baked_terrain(terrain, tx, ty) == 0,
{
}

/// A time before the epoch counts as the large number that its bits stand for without a sign.
pub open spec fn unsigned(micros: i64) -> int {
    if micros >= 0 {
        micros as int
    } else {
        0x1_0000_0000_0000_0000 + micros
    }
}

/// A line of chat is stamped in whole milliseconds.
pub proof fn lemma_chat_time(micros: i64)
    ensures
        1000 * chat_millis(micros) <= unsigned(micros) < 1000 * chat_millis(micros) + 1000,
{
}

/// Who talks is the first row with the client's identity, if there is one.
pub proof fn lemma_speaker(players: Seq<Player>, sender: Identity, from: int)
    requires
        0 <= from <= players.len(),
    ensures
        match speaker_from(players, sender, from) {
            Some(i) => from <= i < players.len() && players[i].identity == sender && forall|j: int|
                from <= j < i ==> (#[trigger] players[j]).identity != sender,
            None => forall|j: int|
                from <= j < players.len() ==> (#[trigger] players[j]).identity != sender,
        },
    decreases players.len() - from,
{
    if from < players.len() && players[from].identity != sender {
        lemma_speaker(players, sender, from + 1);
    }
}

/// A new match waits in its lobby for its creator, at tick zero and at the normal speed, with the name
/// and the difficulty that were asked for. There are three difficulties.
pub proof fn lemma_created(sender: Identity, now: i64, name: String, difficulty: u8)
    ensures
        ({
            let m = created(sender, now, name, difficulty);
            &&& m.id == 0
            &&& m.creator == sender
            &&& m.name == name
            &&& m.tick == 0
            &&& m.phase == 0
            &&& m.created_at == now
            &&& m.winner is None
            &&& m.total_land == 0
            &&& m.difficulty == difficulty
            &&& m.speed_multiplier == 4
            &&& m.sub_tick_accum == 0
        }),
        valid_difficulty(difficulty) <==> difficulty == 0 || difficulty == 1 || difficulty == 2,
{
}

/// Players are coloured by how many came before them.
pub proof fn lemma_colors(count: nat)
    requires
        count <= 13,
    ensures
        next_color(count) == count,
{
}

/// Only who plays in the match changes its speed. The quarters of a step that were left over are then
/// gone, and nothing else of the match changes.
pub proof fn lemma_speed_answer(
    m: Option<Match>,
    players: Seq<Player>,
    sender: Identity,
    speed: u8,
)
    ensures
        ({
            let answer = speed_answer(m, players, sender, speed);
            let known = speed == 1 || speed == 2 || speed == 4 || speed == 8 || speed == 16;
            let place = human_place(players, sender);
            &&& !known <==> answer == Err::<Match, GameError>(GameError::InvalidSpeed)
            &&& known && m is None <==> answer == Err::<Match, GameError>(GameError::MatchNotFound)
            &&& known && m is Some && place is None <==> answer == Err::<Match, GameError>(
                GameError::NotInMatch,
            )
            &&& known && m is Some && place is Some ==> {
                let after = answer->Ok_0;
                &&& answer is Ok
                &&& after.speed_multiplier == speed
                &&& after.sub_tick_accum == 0
                &&& after == (Match {
                    speed_multiplier: after.speed_multiplier,
                    sub_tick_accum: after.sub_tick_accum,
                    ..m->Some_0
                })
            }
        }),
{
}

/// A match starts only once, out of its lobby. Its players then choose their spawn tiles, and nothing
/// else of it changes but the count of its land.
pub proof fn lemma_start_answer(m: Option<Match>, terrain: Seq<u8>)
    requires
        land_tiles(terrain).len() <= u32::MAX,
    ensures
        start_refusal(m) == Some(GameError::MatchNotFound) <==> m is None,
        start_refusal(m) == Some(GameError::AlreadyStarted) <==> m is Some && m->Some_0.phase != 0,
        start_refusal(m) is None <==> m is Some && m->Some_0.phase == 0,
        m is Some ==> {
            let after = started_on(m->Some_0, terrain);
            &&& after.phase == 1
            &&& after.total_land == land_tiles(terrain).len()
            &&& after == (Match {
                phase: after.phase,
                total_land: after.total_land,
                ..m->Some_0
            })
        },
{
}

/// A line of chat holds the text as it was sent, the id of the sender's first row, and the time.
pub proof fn lemma_chat_answer(
    players: Seq<Player>,
    match_id: u64,
    sender: Identity,
    now: i64,
    text: String,
)
    ensures
        ({
            let answer = chat_answer(players, match_id, sender, now, text);
            let line = answer->Ok_0;
            &&& answer is Err ==> answer->Err_0 == GameError::NotInMatch && forall|j: int|
                0 <= j < players.len() ==> (#[trigger] players[j]).identity != sender
            &&& answer is Ok ==> {
                &&& line.id == 0
                &&& line.match_id == match_id
                &&& line.text == text
                &&& 1000 * line.ts <= unsigned(now) < 1000 * line.ts + 1000
                &&& exists|i: int|
                    0 <= i < players.len() && (#[trigger] players[i]).identity == sender
                        && players[i].id == line.from && (forall|j: int|
                        0 <= j < i ==> (#[trigger] players[j]).identity != sender)
            }
        }),
{
    lemma_speaker(players, sender, 0);
}

} // verus!
