//! Creating, joining, leaving and starting matches, and talking in them.

use vstd::prelude::*;

use crate::error::GameError;
use crate::grid::{
    baked_terrain, chunk_idx, chunk_index, chunk_key, chunk_tile, join_chunk_id, lemma_split,
    mask_terrain, on_map, CHUNKS_X, CHUNKS_Y, CHUNK_SIZE, CHUNK_TILES, SIM_TILES, SIM_W,
    TERRAIN_OCEAN,
};
use crate::players::{find_human, human_place};
use crate::quantity::{zero, zero_quantity};
use crate::tables::{
    phase_follows, Chat, ChunkView, Identity, Match, Player, PlayerView, TileChunk, PHASE_LOBBY,
    PHASE_SPAWN, UNCLAIMED,
};

verus! {

/// A match has at most this many players, bots among them.
pub const MAX_PLAYERS: u32 = 13;

/// A match has at most this many players that are no bots.
pub const MAX_HUMANS: u32 = 8;

/// The normal speed, in quarters.
pub const DEFAULT_SPEED: u8 = 4;

/// The identity of every bot.
pub open spec fn bot_identity() -> Identity {
    Identity { hi: 0, lo: 0 }
}

/// The row of a player that joins a match.
pub open spec fn new_player(
    match_id: u64,
    identity: Identity,
    name: Seq<char>,
    color: u8,
    is_bot: bool,
) -> PlayerView {
    PlayerView {
        id: 0,
        match_id,
        identity,
        name,
        color,
        spawn_tile: None,
        troops: zero_quantity(),
        gold: 0,
        max_troops: zero_quantity(),
        tiles: 0,
        alive: true,
        is_bot,
        traitor_until: 0,
        city_count: 0,
        city_levels: 0,
        owned_chunks: Seq::empty(),
        next_attack_tick: 0,
    }
}

/// How many of the first `n` players are no bots.
pub open spec fn humans_among(players: Seq<Player>, n: int) -> int
    decreases n,
{
    if n <= 0 {
        0
    } else {
        humans_among(players, n - 1) + if players[n - 1].is_bot {
            0int
        } else {
            1
        }
    }
}

/// Why no bot can be added to a match, if so.
pub open spec fn add_refusal(m: Option<&Match>, count: u32) -> Option<GameError> {
    if m is None {
        Some(GameError::MatchNotFound)
    } else if m->Some_0.phase != PHASE_LOBBY {
        Some(GameError::MatchAlreadyStarted)
    } else if count >= MAX_PLAYERS {
        Some(GameError::MatchFull)
    } else {
        None
    }
}

/// Why no client can join a match, if so: there is also a limit on the players that are no bots.
pub open spec fn join_refusal(m: Option<&Match>, players: Seq<Player>) -> Option<GameError> {
    if add_refusal(m, players.len() as u32) is None && humans_among(players, players.len() as int)
        >= MAX_HUMANS {
        Some(GameError::MatchFull)
    } else {
        add_refusal(m, players.len() as u32)
    }
}

/// Is this one of the speeds on offer?
pub open spec fn valid_speed(speed: u8) -> bool {
    speed == 1 || speed == 2 || speed == 4 || speed == 8 || speed == 16
}

/// What leaving a match does to the player's row.
#[derive(Clone, Copy, PartialEq, Eq, Structural, Debug)]
pub enum Departure {
    /// The row with this id is deleted.
    Removed { id: u32 },
    /// The row at this place is stored, the player dead.
    Eliminated { place: usize },
}

/// A match that a client creates.
pub open spec fn created(sender: Identity, now: i64, name: String, difficulty: u8) -> Match {
    Match {
        id: 0,
        creator: sender,
        name,
        tick: 0,
        phase: PHASE_LOBBY,
        created_at: now,
        winner: None,
        total_land: 0,
        difficulty,
        speed_multiplier: DEFAULT_SPEED,
        sub_tick_accum: 0,
    }
}

/// Is this a difficulty that a match can have?
pub open spec fn valid_difficulty(difficulty: u8) -> bool {
    difficulty <= 2
}

/// A client's request to create a match.
pub fn create_match(sender: Identity, now: i64, name: String, difficulty: u8) -> (r: Result<
    Match,
    GameError,
>)
    ensures
        r == (if valid_difficulty(difficulty) {
            Ok(created(sender, now, name, difficulty))
        } else {
            Err(GameError::InvalidDifficulty)
        }),
{
    if difficulty > 2 {
        return Err(GameError::InvalidDifficulty);
    }
    Ok(
        Match {
            id: 0,
            creator: sender,
            name,
            tick: 0,
            phase: PHASE_LOBBY,
            created_at: now,
            winner: None,
            total_land: 0,
            difficulty,
            speed_multiplier: DEFAULT_SPEED,
            sub_tick_accum: 0,
        },
    )
}

/// What comes of a client's leaving: the answer, and the players then.
pub open spec fn left_match(m: Option<&Match>, players: Seq<Player>, sender: Identity) -> (
    Result<Departure, GameError>,
    Seq<Player>,
) {
    if m is None {
        (Err(GameError::MatchNotFound), players)
    } else {
        match human_place(players, sender) {
            None => (Err(GameError::NotInMatch), players),
            Some(i) => if m->Some_0.phase == PHASE_LOBBY {
                (Ok(Departure::Removed { id: players[i].id }), players.remove(i))
            } else {
                (
                    Ok(Departure::Eliminated { place: i as usize }),
                    players.update(
                        i,
                        Player { alive: false, troops: zero_quantity(), ..players[i] },
                    ),
                )
            },
        }
    }
}

/// A client's request to leave a match. In the lobby the player's row goes; later the player dies
/// and the tiles stay on the map.
pub fn leave_match(m: Option<&Match>, players: &mut Vec<Player>, sender: Identity) -> (r: Result<
    Departure,
    GameError,
>)
    ensures
        (r, final(players)@) == left_match(m, old(players)@, sender),
{
    match m {
        Some(m) => {
            let place: usize = match find_human(players, sender) {
                Some(place) => place,
                None => {
                    return Err(GameError::NotInMatch);
                },
            };
            if m.phase == PHASE_LOBBY {
                let me: Player = players.remove(place);
                Ok(Departure::Removed { id: me.id })
            } else {
                players[place].alive = false;
                players[place].troops = zero();
                Ok(Departure::Eliminated { place })
            }
        },
        None => Err(GameError::MatchNotFound),
    }
}

/// Why no bot can be added to a match, if so.
fn check_add(m: Option<&Match>, count: u32) -> (r: Option<GameError>)
    ensures
        r == add_refusal(m, count),
{
    match m {
        Some(m) => {
            if m.phase != PHASE_LOBBY {
                Some(GameError::MatchAlreadyStarted)
            } else if count >= MAX_PLAYERS {
                Some(GameError::MatchFull)
            } else {
                None
            }
        },
        None => Some(GameError::MatchNotFound),
    }
}

/// How many players are no bots.
fn count_humans(players: &Vec<Player>) -> (r: usize)
    ensures
        r == humans_among(players@, players@.len() as int),
{
    let mut humans: usize = 0;
    let mut i: usize = 0;
    while i < players.len()
        invariant
            humans <= i <= players@.len(),
            humans == humans_among(players@, i as int),
        decreases players@.len() - i,
    {
        if !players[i].is_bot {
            humans += 1;
        }
        i += 1;
    }
    humans
}

/// The row of a player that joins a match.
fn make_player(match_id: u64, identity: Identity, name: String, color: u8, is_bot: bool) -> (r:
    Player)
    ensures
        r@ == new_player(match_id, identity, name@, color, is_bot),
{
    Player {
        id: 0,
        match_id,
        identity,
        name,
        color,
        spawn_tile: None,
        troops: zero(),
        gold: 0,
        max_troops: zero(),
        tiles: 0,
        alive: true,
        is_bot,
        traitor_until: 0,
        city_count: 0,
        city_levels: 0,
        owned_chunks: Vec::new(),
        next_attack_tick: 0,
    }
}

/// The colour of the next player of a match with so many.
pub open spec fn next_color(count: nat) -> u8 {
    count as u32 as u8
}

/// A client's request to join a match: the row of the new player, coloured by the number of
/// players before.
pub fn join_match(
    m: Option<&Match>,
    players: &Vec<Player>,
    match_id: u64,
    sender: Identity,
    name: String,
) -> (r: Result<Player, GameError>)
    ensures
        match join_refusal(m, players@) {
            Some(error) => r == Err::<Player, GameError>(error),
            None => r is Ok && r->Ok_0@ == new_player(
                match_id,
                sender,
                name@,
                next_color(players@.len()),
                false,
            ),
        },
        r is Ok && players@.len() <= u32::MAX ==> players@.len() + 1 <= MAX_PLAYERS,
        r is Ok ==> humans_among(players@, players@.len() as int) + 1 <= MAX_HUMANS,
{
    let count: u32 = players.len() as u32;
    if let Some(error) = check_add(m, count) {
        return Err(error);
    }
    if count_humans(players) >= MAX_HUMANS as usize {
        return Err(GameError::MatchFull);
    }
    Ok(make_player(match_id, sender, name, count as u8, false))
}

/// A request to add a bot to a match: the row of the bot.
pub fn add_bot(m: Option<&Match>, players: &Vec<Player>, match_id: u64, bot_name: String) -> (r:
    Result<Player, GameError>)
    ensures
        match add_refusal(m, players@.len() as u32) {
            Some(error) => r == Err::<Player, GameError>(error),
            None => r is Ok && r->Ok_0@ == new_player(
                match_id,
                bot_identity(),
                bot_name@,
                next_color(players@.len()),
                true,
            ),
        },
        r is Ok && players@.len() <= u32::MAX ==> players@.len() + 1 <= MAX_PLAYERS,
{
    let count: u32 = players.len() as u32;
    if let Some(error) = check_add(m, count) {
        return Err(error);
    }
    Ok(make_player(match_id, Identity { hi: 0, lo: 0 }, bot_name, count as u8, true))
}

/// The answer to a client that wants another speed: the match with it, or why there is none.
pub open spec fn speed_answer(
    m: Option<Match>,
    players: Seq<Player>,
    sender: Identity,
    speed_multiplier: u8,
) -> Result<Match, GameError> {
    if !valid_speed(speed_multiplier) {
        Err(GameError::InvalidSpeed)
    } else if m is None {
        Err(GameError::MatchNotFound)
    } else if human_place(players, sender) is None {
        Err(GameError::NotInMatch)
    } else {
        Ok(Match { speed_multiplier, sub_tick_accum: 0, ..m->Some_0 })
    }
}

/// A client's request to change the speed of a match that the client plays in.
pub fn set_speed(
    m: Option<Match>,
    players: &Vec<Player>,
    sender: Identity,
    speed_multiplier: u8,
) -> (r: Result<Match, GameError>)
    ensures
        r == speed_answer(m, players@, sender, speed_multiplier),
{
    if !(speed_multiplier == 1 || speed_multiplier == 2 || speed_multiplier == 4
        || speed_multiplier == 8 || speed_multiplier == 16) {
        return Err(GameError::InvalidSpeed);
    }
    let mut m: Match = match m {
        Some(m) => m,
        None => {
            return Err(GameError::MatchNotFound);
        },
    };
    if find_human(players, sender).is_none() {
        return Err(GameError::NotInMatch);
    }
    m.speed_multiplier = speed_multiplier;
    m.sub_tick_accum = 0;
    Ok(m)
}

/// The row of a chunk at the start of a match.
pub open spec fn fresh_chunk(match_id: u64, terrain: Seq<u8>, index: int) -> ChunkView {
    ChunkView {
        id: chunk_key(match_id, index) as u64,
        match_id,
        chunk_x: (index % CHUNKS_X as int) as u16,
        chunk_y: (index / CHUNKS_X as int) as u16,
        owners: Seq::new(CHUNK_TILES as nat, |cell: int| UNCLAIMED),
        terrain: Seq::new(
            CHUNK_TILES as nat,
            |cell: int|
                baked_terrain(terrain, chunk_tile(index, cell).0, chunk_tile(index, cell).1),
        ),
    }
}

/// The land tiles of the map, by their row-major indices.
pub open spec fn land_tiles(terrain: Seq<u8>) -> Set<int> {
    Set::new(|t: int| 0 <= t < terrain.len() && terrain[t] != TERRAIN_OCEAN)
}

/// The place of a tile when the map is walked chunk by chunk.
spec fn place_of(t: int) -> int {
    let tx = t % SIM_W as int;
    let ty = t / SIM_W as int;
    chunk_index(tx / CHUNK_SIZE as int, ty / CHUNK_SIZE as int) * CHUNK_TILES + (ty
        % CHUNK_SIZE as int) * CHUNK_SIZE + tx % CHUNK_SIZE as int
}

/// The land tiles at the first `n` places of that walk.
spec fn land_before(terrain: Seq<u8>, n: int) -> Set<int> {
    Set::new(
        |t: int| 0 <= t < terrain.len() && terrain[t] != TERRAIN_OCEAN && place_of(t) < n,
    )
}

/// The tile at a place of the walk.
proof fn lemma_place_forward(index: int, cell: int, t: int)
    requires
        0 <= index,
        0 <= cell < CHUNK_TILES,
        0 <= t < SIM_TILES,
        place_of(t) == index * CHUNK_TILES + cell,
    ensures
        ({
            let (tx, ty) = chunk_tile(index, cell);
            on_map(tx, ty) && t == ty * SIM_W + tx
        }),
{
    let tx = t % 1350;
    let ty = t / 1350;
    let inner = (ty % 32) * 32 + tx % 32;
    lemma_split((ty / 32) * 43 + tx / 32, inner, 1024);
    lemma_split(index, cell, 1024);
    lemma_split(ty / 32, tx / 32, 43);
    lemma_split(ty % 32, tx % 32, 32);
}

/// The place of a tile on the walk.
proof fn lemma_place_backward(index: int, cell: int, t: int)
    requires
        0 <= index,
        0 <= cell < CHUNK_TILES,
        0 <= t < SIM_TILES,
        ({
            let (tx, ty) = chunk_tile(index, cell);
            on_map(tx, ty) && t == ty * SIM_W + tx
        }),
    ensures
        place_of(t) == index * CHUNK_TILES + cell,
{
    let (tx, ty) = chunk_tile(index, cell);
    lemma_split(ty, tx, 1350);
    lemma_split(index % 43, cell % 32, 32);
    lemma_split(index / 43, cell / 32, 32);
}

/// The walk has a place for every tile.
proof fn lemma_place_bound(t: int)
    requires
        0 <= t < SIM_TILES,
    ensures
        0 <= place_of(t) < CHUNKS_X * CHUNKS_Y * CHUNK_TILES,
{
    let tx = t % 1350;
    let ty = t / 1350;
    assert(0 <= tx / 32 < 43 && 0 <= ty / 32 < 22);
}

/// The walk meets one more tile, or none.
proof fn lemma_land_before(terrain: Seq<u8>, index: int, cell: int)
    requires
        terrain.len() == SIM_TILES,
        0 <= index,
        0 <= cell < CHUNK_TILES,
        land_before(terrain, index * CHUNK_TILES + cell).finite(),
    ensures
        ({
            let n = index * CHUNK_TILES + cell;
            let (tx, ty) = chunk_tile(index, cell);
            &&& land_before(terrain, n + 1).finite()
            &&& land_before(terrain, n + 1).len() == land_before(terrain, n).len()
                + if baked_terrain(terrain, tx, ty) != TERRAIN_OCEAN {
                1nat
            } else {
                0nat
            }
        }),
{
    let n = index * CHUNK_TILES + cell;
    let (tx, ty) = chunk_tile(index, cell);
    let t = ty * SIM_W + tx;
    let before = land_before(terrain, n);
    let after = land_before(terrain, n + 1);
    assert forall|u: int| 0 <= u < SIM_TILES implies (place_of(u) == n <==> on_map(tx, ty) && u
        == t) by {
        if place_of(u) == n {
            lemma_place_forward(index, cell, u);
        }
        if on_map(tx, ty) && u == t {
            lemma_place_backward(index, cell, u);
        }
    }
    if baked_terrain(terrain, tx, ty) != TERRAIN_OCEAN {
        assert(0 <= t < SIM_TILES);
        assert(after =~= before.insert(t));
        assert(!before.contains(t));
    } else {
        assert(after =~= before);
    }
}

/// Builds the chunk rows of a match from the baked terrain, and counts the land tiles.
pub fn generate_terrain(match_id: u64, terrain: &[u8]) -> (r: (Vec<TileChunk>, u32))
    requires
        terrain@.len() == SIM_TILES,
    ensures
        r.0@.len() == CHUNKS_X * CHUNKS_Y,
        forall|i: int|
            0 <= i < r.0@.len() ==> (#[trigger] r.0@[i])@ == fresh_chunk(match_id, terrain@, i),
        land_tiles(terrain@).finite(),
        r.1 == land_tiles(terrain@).len(),
{
    let mut chunks: Vec<TileChunk> = Vec::new();
    let mut total_land: u32 = 0;
    let mut index: u32 = 0;
    proof {
        assert forall|t: int| 0 <= t < SIM_TILES implies place_of(t) >= 0 by {
            lemma_place_bound(t);
        }
        assert(land_before(terrain@, 0) =~= Set::empty());
    }
    while index < CHUNKS_X * CHUNKS_Y
        invariant
            terrain@.len() == SIM_TILES,
            index <= CHUNKS_X * CHUNKS_Y,
            chunks@.len() == index,
            forall|i: int|
                0 <= i < index ==> (#[trigger] chunks@[i])@ == fresh_chunk(match_id, terrain@, i),
            land_before(terrain@, index * CHUNK_TILES).finite(),
            total_land == land_before(terrain@, index * CHUNK_TILES).len(),
            total_land <= index * CHUNK_TILES,
        decreases CHUNKS_X * CHUNKS_Y - index,
    {
        let cx: u32 = index % CHUNKS_X;
        let cy: u32 = index / CHUNKS_X;
        let mut owners: Vec<u8> = Vec::new();
        let mut codes: Vec<u8> = Vec::new();
        let mut cell: u32 = 0;
        while cell < CHUNK_TILES
            invariant
                terrain@.len() == SIM_TILES,
                index < CHUNKS_X * CHUNKS_Y,
                cx == index as int % CHUNKS_X as int,
                cy == index as int / CHUNKS_X as int,
                cell <= CHUNK_TILES,
                owners@.len() == cell,
                codes@.len() == cell,
                forall|i: int| 0 <= i < cell ==> owners@[i] == UNCLAIMED,
                forall|i: int|
                    0 <= i < cell ==> #[trigger] codes@[i] == baked_terrain(
                        terrain@,
                        chunk_tile(index as int, i).0,
                        chunk_tile(index as int, i).1,
                    ),
                land_before(terrain@, index * CHUNK_TILES + cell).finite(),
                total_land == land_before(terrain@, index * CHUNK_TILES + cell).len(),
                total_land <= index * CHUNK_TILES + cell,
            decreases CHUNK_TILES - cell,
        {
            let tx: u32 = cx * CHUNK_SIZE + cell % CHUNK_SIZE;
            let ty: u32 = cy * CHUNK_SIZE + cell / CHUNK_SIZE;
            let code: u8 = mask_terrain(terrain, tx, ty);
            proof {
                lemma_land_before(terrain@, index as int, cell as int);
            }
            codes.push(code);
            owners.push(UNCLAIMED);
            if code != TERRAIN_OCEAN {
                total_land += 1;
            }
            cell += 1;
        }
        let chunk: TileChunk = TileChunk {
            id: join_chunk_id(match_id, chunk_idx(cx, cy)),
            match_id,
            chunk_x: cx as u16,
            chunk_y: cy as u16,
            owners,
            terrain: codes,
        };
        proof {
            let fresh = fresh_chunk(match_id, terrain@, index as int);
            assert(chunk@.owners =~= fresh.owners);
            assert(chunk@.terrain =~= fresh.terrain);
            assert(chunk_index(cx as int, cy as int) == index);
        }
        chunks.push(chunk);
        index += 1;
    }
    proof {
        assert forall|t: int| 0 <= t < SIM_TILES implies place_of(t) < CHUNKS_X * CHUNKS_Y
            * CHUNK_TILES by {
            lemma_place_bound(t);
        }
        assert(land_before(terrain@, index * CHUNK_TILES) =~= land_tiles(terrain@));
    }
    (chunks, total_land)
}

/// Why a match does not start, if it does not.
pub open spec fn start_refusal(m: Option<Match>) -> Option<GameError> {
    if m is None {
        Some(GameError::MatchNotFound)
    } else if m->Some_0.phase != PHASE_LOBBY {
        Some(GameError::AlreadyStarted)
    } else {
        None
    }
}

/// A match that starts on this terrain.
pub open spec fn started_on(m: Match, terrain: Seq<u8>) -> Match {
    Match { phase: PHASE_SPAWN, total_land: land_tiles(terrain).len() as u32, ..m }
}

/// A request to start a match: the match, whose players then choose their spawn tiles, and the
/// rows of its chunks.
pub fn start_match(m: Option<Match>, terrain: &[u8]) -> (r: Result<
    (Match, Vec<TileChunk>),
    GameError,
>)
    requires
        terrain@.len() == SIM_TILES,
    ensures
        match r {
            Err(error) => start_refusal(m) == Some(error),
            Ok((started, chunks)) => {
                &&& start_refusal(m) is None
                &&& started == started_on(m->Some_0, terrain@)
                &&& land_tiles(terrain@).len() <= u32::MAX
                &&& phase_follows(m->Some_0.phase, started.phase)
                &&& chunks@.len() == CHUNKS_X * CHUNKS_Y
                &&& forall|i: int|
                    0 <= i < chunks@.len() ==> (#[trigger] chunks@[i])@ == fresh_chunk(
                        m->Some_0.id,
                        terrain@,
                        i,
                    )
            },
        },
{
    let mut m: Match = match m {
        Some(m) => m,
        None => {
            return Err(GameError::MatchNotFound);
        },
    };
    if m.phase != PHASE_LOBBY {
        return Err(GameError::AlreadyStarted);
    }
    let (chunks, total_land): (Vec<TileChunk>, u32) = generate_terrain(m.id, terrain);
    m.total_land = total_land;
    m.phase = PHASE_SPAWN;
    Ok((m, chunks))
}

/// The place of a client's first row, a bot's included, from a place on.
pub open spec fn speaker_from(players: Seq<Player>, sender: Identity, from: int) -> Option<int>
    decreases players.len() - from,
{
    if from >= players.len() {
        None
    } else if players[from].identity == sender {
        Some(from)
    } else {
        speaker_from(players, sender, from + 1)
    }
}

/// A time in microseconds, taken as unsigned, in milliseconds.
pub open spec fn chat_millis(micros: i64) -> int {
    if micros >= 0 {
        micros as int / 1000
    } else {
        (micros + 0x1_0000_0000_0000_0000) / 1000
    }
}

/// The answer to a client that says something: the line of chat, or why there is none.
pub open spec fn chat_answer(
    players: Seq<Player>,
    match_id: u64,
    sender: Identity,
    now: i64,
    text: String,
) -> Result<Chat, GameError> {
    match speaker_from(players, sender, 0) {
        Some(i) => Ok(
            Chat { id: 0, match_id, from: players[i].id, text, ts: chat_millis(now) as u64 },
        ),
        None => Err(GameError::NotInMatch),
    }
}

/// A client's request to say something in a match: the line of chat.
pub fn send_chat(
    players: &Vec<Player>,
    match_id: u64,
    sender: Identity,
    now: i64,
    text: String,
) -> (r: Result<Chat, GameError>)
    ensures
        r == chat_answer(players@, match_id, sender, now, text),
{
    let mut i: usize = 0;
    while i < players.len()
        invariant
            i <= players@.len(),
            speaker_from(players@, sender, 0) == speaker_from(players@, sender, i as int),
        decreases players@.len() - i,
    {
        if players[i].identity == sender {
            proof {
                assert(now < 0 ==> (now as u64) == now + 0x1_0000_0000_0000_0000) by (bit_vector);
            }
            return Ok(
                Chat { id: 0, match_id, from: players[i].id, text, ts: now as u64 / 1000 },
            );
        }
        i += 1;
    }
    Err(GameError::NotInMatch)
}

} // verus!
