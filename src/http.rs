use vstd::prelude::*;

use crate::gamestate::{GameMap, Gamestate, Message, Player, Position};

verus! {

/// Asks for a new game.
pub struct NewGameRequest {
    pub public: bool,
}

pub struct NewGameResponse {
    pub game_id: String,
}

/// Asks to join the game `game_id` under the name `player_name`.
pub struct JoinGameRequest {
    pub game_id: String,
    pub player_name: String,
}

pub struct JoinGameResponse {
    pub player_id: String,
    pub position: Position,
}

/// One poll of a player: where it is, whether it is ready, the rooms it has
/// discovered and cleared since the last poll, and whether it reached the exit.
pub struct UpdateRequest {
    pub game_id: String,
    pub player_id: String,
    pub position: Position,
    pub new_rooms: Vec<(i32, i32)>,
    pub cleared_rooms: Vec<(i32, i32)>,
    pub ready: bool,
    pub end: bool,
}

/// The full state of a game, as an update returns it.
pub struct UpdateResponse {
    pub players: Vec<(String, Player)>,
    pub map: GameMap,
    pub started: bool,
    pub keys: u32,
    pub messages: Vec<Message>,
    pub round: u32,
}

fn copy_players(players: &Vec<(String, Player)>) -> (r: Vec<(String, Player)>)
    ensures
        r@ == players@,
{
    let mut r: Vec<(String, Player)> = Vec::new();
    let mut i: usize = 0;
    while i < players.len()
        invariant
            i <= players@.len(),
            r@ == players@.subrange(0, i as int),
        decreases players@.len() - i,
    {
        let p = &players[i].1;
        r.push(
            (
                players[i].0.clone(),
                Player { name: p.name.clone(), position: p.position, ready: p.ready },
            ),
        );
        i += 1;
        assert(r@ =~= players@.subrange(0, i as int));
    }
    assert(r@ =~= players@);
    r
}

fn copy_messages(messages: &Vec<Message>) -> (r: Vec<Message>)
    ensures
        r@ == messages@,
{
    let mut r: Vec<Message> = Vec::new();
    let mut i: usize = 0;
    while i < messages.len()
        invariant
            i <= messages@.len(),
            r@ == messages@.subrange(0, i as int),
        decreases messages@.len() - i,
    {
        r.push(Message { text: messages[i].text.clone() });
        i += 1;
        assert(r@ =~= messages@.subrange(0, i as int));
    }
    assert(r@ =~= messages@);
    r
}

impl UpdateResponse {
    /// A copy of `gamestate`.
    pub fn new(gamestate: &Gamestate) -> (r: UpdateResponse)
        ensures
            r.players@ == gamestate.players@,
            r.map.rooms@ == gamestate.map.rooms@,
            r.started == gamestate.started,
            r.keys == gamestate.keys,
            r.messages@ == gamestate.messages@,
            r.round == gamestate.round,
    {
        let mut rooms = Vec::new();
        let mut i: usize = 0;
        while i < gamestate.map.rooms.len()
            invariant
                i <= gamestate.map.rooms@.len(),
                rooms@ == gamestate.map.rooms@.subrange(0, i as int),
            decreases gamestate.map.rooms@.len() - i,
        {
            rooms.push(gamestate.map.rooms[i]);
            i += 1;
            assert(rooms@ =~= gamestate.map.rooms@.subrange(0, i as int));
        }
        assert(rooms@ =~= gamestate.map.rooms@);
        UpdateResponse {
            players: copy_players(&gamestate.players),
            map: GameMap { rooms },
            started: gamestate.started,
            keys: gamestate.keys,
            messages: copy_messages(&gamestate.messages),
            round: gamestate.round,
        }
    }
}

} // verus!
