//! What happens to a player's row when tiles change hands.

use vstd::prelude::*;

use crate::tables::{Identity, Player, PlayerView};

verus! {

/// A player tracks at most this many chunks. The map has fewer.
pub const OWNED_CHUNKS_CAP: usize = 1024;

/// A defender with fewer tiles than this is eliminated.
pub const DEFENDER_DEAD_TILES_THRESH: u32 = 100;

/// The tracked chunks with one more, unless it is tracked already or there are too many.
pub open spec fn chunks_with(chunks: Seq<u64>, chunk_id: u64) -> Seq<u64> {
    if chunks.len() >= OWNED_CHUNKS_CAP || chunks.contains(chunk_id) {
        chunks
    } else {
        chunks.push(chunk_id)
    }
}

/// The tracked chunks without the first mention of one; the last takes its place.
pub open spec fn chunks_without(chunks: Seq<u64>, chunk_id: u64) -> Seq<u64> {
    match chunks.index_of_first(chunk_id) {
        Some(place) => chunks.update(place, chunks.last()).drop_last(),
        None => chunks,
    }
}

/// The row of a player that has gained a tile of a chunk.
pub open spec fn with_tile(player: PlayerView, chunk_id: u64) -> PlayerView {
    PlayerView {
        owned_chunks: chunks_with(player.owned_chunks, chunk_id),
        tiles: (player.tiles + 1) as u32,
        ..player
    }
}

/// The row of a defender that has lost a tile of a chunk, and holds others there or not.
pub open spec fn without_tile(player: PlayerView, chunk_id: u64, holds_others: bool) -> PlayerView {
    let tiles = if player.tiles > 0 {
        (player.tiles - 1) as u32
    } else {
        0
    };
    PlayerView {
        tiles,
        owned_chunks: if holds_others {
            player.owned_chunks
        } else {
            chunks_without(player.owned_chunks, chunk_id)
        },
        alive: player.alive && tiles >= DEFENDER_DEAD_TILES_THRESH,
        ..player
    }
}

/// Is this the row of a client, and not of a bot?
pub open spec fn is_human(player: Player, sender: Identity) -> bool {
    player.identity == sender && !player.is_bot
}

/// The place of a client's first row, from a place on.
pub open spec fn human_from(players: Seq<Player>, sender: Identity, from: int) -> Option<int>
    decreases players.len() - from,
{
    if from >= players.len() {
        None
    } else if is_human(players[from], sender) {
        Some(from)
    } else {
        human_from(players, sender, from + 1)
    }
}

/// The place of a client's first row among the players of a match.
pub open spec fn human_place(players: Seq<Player>, sender: Identity) -> Option<int> {
    human_from(players, sender, 0)
}

/// The place of a client is a place, the client's, and the first such.
pub proof fn lemma_human_from(players: Seq<Player>, sender: Identity, from: int)
    requires
        0 <= from <= players.len(),
    ensures
        match human_from(players, sender, from) {
            Some(i) => {
                &&& from <= i < players.len()
                &&& is_human(players[i], sender)
                &&& forall|j: int| from <= j < i ==> !is_human(#[trigger] players[j], sender)
            },
            None => forall|j: int|
                from <= j < players.len() ==> !is_human(#[trigger] players[j], sender),
        },
    decreases players.len() - from,
{
    if from < players.len() && !is_human(players[from], sender) {
        lemma_human_from(players, sender, from + 1);
    }
}

/// Finds a client among the players of a match.
pub fn find_human(players: &Vec<Player>, sender: Identity) -> (r: Option<usize>)
    ensures
        match r {
            Some(i) => human_place(players@, sender) == Some(i as int) && i < players@.len()
                && is_human(players@[i as int], sender),
            None => human_place(players@, sender) is None,
        },
{
    let mut i: usize = 0;
    while i < players.len()
        invariant
            i <= players@.len(),
            human_place(players@, sender) == human_from(players@, sender, i as int),
        decreases players@.len() - i,
    {
        if players[i].identity == sender && !players[i].is_bot {
            return Some(i);
        }
        i += 1;
    }
    None
}

/// The place of the first mention of a chunk.
fn chunk_position(chunks: &Vec<u64>, chunk_id: u64) -> (r: Option<usize>)
    ensures
        match r {
            Some(place) => chunks@.index_of_first(chunk_id) == Some(place as int) && place
                < chunks@.len() && chunks@.contains(chunk_id),
            None => chunks@.index_of_first(chunk_id) is None && !chunks@.contains(chunk_id),
        },
{
    let mut i: usize = 0;
    while i < chunks.len()
        invariant
            i <= chunks@.len(),
            forall|j: int| 0 <= j < i ==> chunks@[j] != chunk_id,
        decreases chunks@.len() - i,
    {
        if chunks[i] == chunk_id {
            proof {
                chunks@.index_of_first_ensures(chunk_id);
                assert(chunks@[i as int] == chunk_id);
            }
            return Some(i);
        }
        i += 1;
    }
    proof {
        chunks@.index_of_first_ensures(chunk_id);
    }
    None
}

/// Tracks a chunk, unless it is tracked already or there are too many.
pub fn player_add_chunk(player: &mut Player, chunk_id: u64)
    ensures
        final(player)@ == (PlayerView {
            owned_chunks: chunks_with(old(player)@.owned_chunks, chunk_id),
            ..old(player)@
        }),
{
    if player.owned_chunks.len() >= OWNED_CHUNKS_CAP {
        return ;
    }
    if chunk_position(&player.owned_chunks, chunk_id).is_none() {
        player.owned_chunks.push(chunk_id);
    }
}

/// Stops tracking a chunk.
pub fn player_remove_chunk(player: &mut Player, chunk_id: u64)
    ensures
        final(player)@ == (PlayerView {
            owned_chunks: chunks_without(old(player)@.owned_chunks, chunk_id),
            ..old(player)@
        }),
{
    if let Some(pos) = chunk_position(&player.owned_chunks, chunk_id) {
        let _removed: u64 = player.owned_chunks.swap_remove(pos);
    }
}

/// Books a tile that a player has gained.
pub fn gain_tile(player: &mut Player, chunk_id: u64)
    requires
        old(player).tiles < u32::MAX,
    ensures
        final(player)@ == with_tile(old(player)@, chunk_id),
{
    player_add_chunk(player, chunk_id);
    player.tiles += 1;
}

/// Books a tile that a defender has lost.
pub fn lose_tile(player: &mut Player, chunk_id: u64, holds_others: bool)
    ensures
        final(player)@ == without_tile(old(player)@, chunk_id, holds_others),
        final(player).tiles < DEFENDER_DEAD_TILES_THRESH ==> !final(player).alive,
{
    if player.tiles > 0 {
        player.tiles -= 1;
    }
    if !holds_others {
        player_remove_chunk(player, chunk_id);
    }
    if player.tiles < DEFENDER_DEAD_TILES_THRESH && player.alive {
        player.alive = false;
    }
}

} // verus!
