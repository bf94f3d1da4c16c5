use lycan::gamestate::{Gamestate, Position};
use lycan::http::UpdateResponse;
use lycan::room::Item;
use lycan::economy::{Curses, ItemDraw};
use lycan::server_state::{ServerGamestate, ServerState};

fn here() -> Position {
    Position { x: 300, y: 140 }
}

fn store_with_blank_game(id: &str) -> ServerState {
    let mut store = ServerState::new();
    store.games.push((
        id.to_string(),
        ServerGamestate { gamestate: Gamestate::default(), curses: Curses::new() },
    ));
    store
}

#[test]
fn new_games_get_distinct_short_identifiers() {
    let mut store = ServerState::new();
    let a = store.new_game(true);
    let b = store.new_game(false);
    assert_eq!(store.game_count(), 2);
    assert_ne!(a, b);
    assert!(a.len() >= 6);
    assert_eq!(store.find_game(&a), Some(0));
    assert_eq!(store.find_game(&b), Some(1));
}

#[test]
fn joining_an_unknown_game_is_not_found() {
    let mut store = ServerState::new();
    store.new_game(true);
    assert!(store.join_game("nope".to_string(), "Alice".to_string()).is_none());
    assert_eq!(store.game_count(), 1);
}

#[test]
fn update_of_unknown_game_is_not_found() {
    let mut store = ServerState::new();
    let id = store.new_game(true);
    let (player, _) = store.join_game(id, "Alice".to_string()).unwrap();
    let r = store.update("abcdef".to_string(), player, here(), vec![(1, 0)], vec![], true, false);
    assert!(r.is_none());
    assert_eq!(store.game_count(), 1);
}

#[test]
fn update_of_unknown_player_changes_nothing() {
    let mut store = store_with_blank_game("g1");
    let before = store.games[0].0.clone();
    let r = store.update(
        "g1".to_string(),
        "ghost".to_string(),
        here(),
        vec![(1, 0)],
        vec![(0, 0)],
        true,
        true,
    );
    assert!(r.is_none());
    assert_eq!(store.games[0].0, before);
    assert_eq!(store.games[0].1.gamestate.map.rooms.len(), 1);
    assert_eq!(store.games[0].1.gamestate.round, 1);
    assert!(store.games[0].1.gamestate.messages.is_empty());
}

#[test]
fn end_to_end_round() {
    let mut store = ServerState::new();
    let game = store.new_game(true);
    let (alice, alice_spawn) = store.join_game(game.clone(), "Alice".to_string()).unwrap();
    let (bob, _) = store.join_game(game.clone(), "Bob".to_string()).unwrap();
    assert_ne!(alice, bob);
    // spawn points are room centres away from the exit room
    assert_eq!(alice_spawn.x.rem_euclid(256), 128);
    assert_eq!(alice_spawn.y.rem_euclid(256), 128);
    assert_ne!(alice_spawn, Position { x: 128, y: 128 });

    let g = store.update(game.clone(), alice.clone(), here(), vec![], vec![], true, false).unwrap();
    assert!(!g.started);
    let g = store.update(game.clone(), bob.clone(), here(), vec![], vec![], true, false).unwrap();
    assert!(g.started);
    let g = store.update(game.clone(), alice.clone(), here(), vec![(1, 0)], vec![], true, false).unwrap();
    assert!(g.started);
    assert!(g.map.room(0, 0).is_some());
    assert!(g.map.room(1, 0).is_some());
    let held = g.map.room(1, 0).unwrap().item;
    let keys = g.keys;
    let logged = g.messages.len();

    let g = store.update(game.clone(), alice.clone(), here(), vec![], vec![(1, 0)], true, false).unwrap();
    assert!(g.map.room(1, 0).unwrap().item.is_none());
    match held {
        Some((Item::Key, _)) => {
            assert_eq!(g.keys, keys + 1);
            assert_eq!(g.messages.len(), logged + 1);
            assert!(g.messages[logged].text.ends_with(" has picked up a key!"));
        },
        Some(_) => {
            assert_eq!(g.keys, keys);
            assert_eq!(g.messages[logged].text, "Alice has been cursed!");
        },
        None => {
            assert_eq!(g.keys, keys);
            assert_eq!(g.messages.len(), logged);
        },
    }

    let g = store.update(game.clone(), bob.clone(), here(), vec![], vec![], true, true).unwrap();
    assert_eq!(g.round, 2);
    assert_eq!(g.keys, 0);
    assert_eq!(g.map.rooms.len(), 1);
    assert_eq!(g.messages.len(), 1);
    assert_eq!(g.messages[0].text, "Bob has found the exit, a new round is starting!");
    assert!(g.started);
    for (_, p) in &g.players {
        assert_eq!(p.position, Position { x: 128, y: 128 });
    }
    assert_eq!(store.games[0].1.curses, Curses::new());
}

#[test]
fn first_reveal_next_to_the_exit_keeps_both_doors_open() {
    let mut store = store_with_blank_game("g1");
    let (alice, _) = store.join_game("g1".to_string(), "Alice".to_string()).unwrap();
    let g = store.update("g1".to_string(), alice, here(), vec![(1, 0)], vec![], true, false).unwrap();
    assert_eq!(g.map.rooms.len(), 2);
    assert!(g.map.room(0, 0).unwrap().doors.right);
    assert!(g.map.room(1, 0).unwrap().doors.left);
    assert!(g.started);
}

#[test]
fn next_round_moves_players_to_the_exit_room() {
    let mut g = ServerGamestate::new();
    g.add_player("a".to_string(), "Alice".to_string(), 3);
    g.add_player("b".to_string(), "Bob".to_string(), 5);
    g.gamestate.keys = 6;
    g.curse(Item::Bad);
    g.next_round();
    assert_eq!(g.gamestate.keys, 0);
    assert_eq!(g.gamestate.round, 2);
    assert!(g.gamestate.messages.is_empty());
    assert_eq!(g.curses, Curses::new());
    assert_eq!(g.gamestate.map.rooms.len(), 1);
    for (_, p) in &g.gamestate.players {
        assert_eq!(p.position, Position { x: 128, y: 128 });
        assert!(g.gamestate.map.room(0, 0).is_some());
    }
}

#[test]
fn apply_update_reveals_and_clears() {
    let mut g = ServerGamestate { gamestate: Gamestate::default(), curses: Curses::new() };
    g.add_player("a".to_string(), "Alice".to_string(), 0);
    g.reveal_room((0, 1), ItemDraw { chance: 0, kind: 3, x: 0, y: 0 });
    let ok = g.apply_update(&"a".to_string(), here(), &vec![(0, -1), (0, -2)], &vec![(0, 1)], false, false);
    assert!(ok);
    assert!(g.gamestate.map.room(0, -1).is_some());
    assert!(g.gamestate.map.room(0, -2).is_some());
    assert_eq!(g.gamestate.keys, 1);
    assert_eq!(g.gamestate.messages[0].text, "Alice has picked up a key!");
    assert!(!g.gamestate.started);
    assert_eq!(g.gamestate.players[0].1.position, here());
    assert!(!g.apply_update(&"b".to_string(), here(), &vec![], &vec![], true, true));
    assert_eq!(g.gamestate.round, 1);
}

#[test]
fn update_response_copies_the_state() {
    let mut g = Gamestate::default();
    g.add_room((1, 0));
    g.keys = 3;
    g.round = 4;
    let r = UpdateResponse::new(&g);
    assert_eq!(r.keys, 3);
    assert_eq!(r.round, 4);
    assert_eq!(r.map.rooms.len(), 2);
    assert!(!r.started);
    assert!(r.players.is_empty());
}

#[test]
fn update_clears_key_curse_empty_and_unknown_rooms() {
    let mut store = store_with_blank_game("g1");
    let (alice, _) = store.join_game("g1".to_string(), "Alice".to_string()).unwrap();
    {
        let game = &mut store.games[0].1;
        game.reveal_room((1, 0), ItemDraw { chance: 0, kind: 3, x: 0, y: 0 });
        game.reveal_room((-1, 0), ItemDraw { chance: 0, kind: 1, x: 0, y: 0 });
        game.reveal_room((0, 1), ItemDraw { chance: 1, kind: 0, x: 0, y: 0 });
    }
    let g = store
        .update("g1".to_string(), alice.clone(), here(), vec![], vec![(1, 0)], false, false)
        .unwrap();
    assert_eq!(g.keys, 1);
    assert_eq!(g.messages.len(), 1);
    assert_eq!(g.messages[0].text, "Alice has picked up a key!");
    assert!(g.map.room(1, 0).unwrap().item.is_none());
    let g = store
        .update("g1".to_string(), alice.clone(), here(), vec![], vec![(-1, 0)], false, false)
        .unwrap();
    assert_eq!(g.keys, 1);
    assert_eq!(g.messages.len(), 2);
    assert_eq!(g.messages[1].text, "Alice has been cursed!");
    assert!(g.map.room(-1, 0).unwrap().item.is_none());
    // an empty room and an unrevealed coordinate change nothing, and the call succeeds
    let g = store
        .update("g1".to_string(), alice, here(), vec![], vec![(0, 1), (5, 5)], false, false)
        .unwrap();
    assert_eq!(g.keys, 1);
    assert_eq!(g.messages.len(), 2);
    assert_eq!(g.map.rooms.len(), 4);
    assert!(g.map.room(5, 5).is_none());
}

#[test]
fn update_grows_as_reveals_do() {
    let mut store = store_with_blank_game("g1");
    let (alice, _) = store.join_game("g1".to_string(), "Alice".to_string()).unwrap();
    let g = store
        .update("g1".to_string(), alice, here(), vec![(1, 0), (0, 1), (1, 0)], vec![], false, false)
        .unwrap();
    assert_eq!(g.map.rooms.len(), 3);
    let mut reference = Gamestate::default();
    reference.add_room((1, 0));
    reference.add_room((0, 1));
    for (a, b) in g.map.rooms.iter().zip(reference.map.rooms.iter()) {
        assert_eq!(a.position, b.position);
        assert_eq!(a.doors, b.doors);
    }
    assert!(g.map.room(0, 0).unwrap().item.is_none());
    for r in &g.map.rooms {
        if let Some((_, (x, y))) = r.item {
            assert!((4..12).contains(&x) && (4..12).contains(&y));
        }
    }
}
