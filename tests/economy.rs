use lycan::gamestate::{Gamestate, Player, Position};
use lycan::room::Item;
use lycan::economy::{Curses, ItemDraw};
use lycan::server_state::ServerGamestate;

fn blank_game() -> ServerGamestate {
    ServerGamestate { gamestate: Gamestate::default(), curses: Curses::new() }
}

fn draw(chance: u32, kind: u32, x: u32, y: u32) -> ItemDraw {
    ItemDraw { chance, kind, x, y }
}

#[test]
fn keys_are_never_limited() {
    let mut g = blank_game();
    for _ in 0..5 {
        assert_eq!(g.curse(Item::Key), Item::Key);
    }
    assert_eq!(g.curses, Curses::new());
}

#[test]
fn each_curse_comes_out_once_per_round() {
    let mut g = blank_game();
    for kind in [Item::Clear, Item::Spin, Item::Bad] {
        let results: Vec<Item> = (0..4).map(|_| g.curse(kind)).collect();
        assert_eq!(results, vec![kind, Item::Key, Item::Key, Item::Key]);
    }
    assert_eq!(g.curses, Curses { clear: true, spin: true, bad: true });
}

#[test]
fn curse_tracker_resets_with_the_round() {
    let mut g = blank_game();
    assert_eq!(g.curse(Item::Spin), Item::Spin);
    assert_eq!(g.curse(Item::Spin), Item::Key);
    g.next_round();
    assert_eq!(g.curse(Item::Spin), Item::Spin);
}

#[test]
fn assign_item_uses_the_draw() {
    let mut g = blank_game();
    g.add_room((1, 0));
    g.assign_item((1, 0), draw(0, 2, 9, 3));
    assert_eq!(g.gamestate.map.room(1, 0).unwrap().item, Some((Item::Bad, (5, 7))));
    g.add_room((2, 0));
    g.assign_item((2, 0), draw(0, 6, 0, 7));
    // the kind `Bad` is used up: a key comes out instead
    assert_eq!(g.gamestate.map.room(2, 0).unwrap().item, Some((Item::Key, (4, 11))));
    // no room, nothing happens
    g.assign_item((7, 7), draw(0, 0, 0, 0));
    assert!(g.gamestate.map.room(7, 7).is_none());
    assert!(!g.curses.clear);
}

#[test]
fn reveal_room_places_an_item_on_even_chance() {
    let mut g = blank_game();
    assert!(g.reveal_room((1, 0), draw(4, 0, 1, 2)));
    assert_eq!(g.gamestate.map.room(1, 0).unwrap().item, Some((Item::Clear, (5, 6))));
    assert!(g.reveal_room((-1, 0), draw(3, 0, 1, 2)));
    assert!(g.gamestate.map.room(-1, 0).unwrap().item.is_none());
    // a known coordinate is not revealed again and gets nothing
    assert!(!g.reveal_room((-1, 0), draw(0, 1, 1, 1)));
    assert!(g.gamestate.map.room(-1, 0).unwrap().item.is_none());
}

#[test]
fn reveal_room_places_nothing_once_the_exit_is_open() {
    let mut g = blank_game();
    g.gamestate.keys = 8;
    assert!(g.reveal_room((0, 1), draw(0, 3, 0, 0)));
    assert!(g.gamestate.map.room(0, 1).unwrap().item.is_none());
}

#[test]
fn clearing_a_key_counts_it_and_announces_it() {
    let mut g = blank_game();
    g.reveal_room((1, 0), draw(0, 3, 0, 0));
    let name = "Alice".to_string();
    g.clear_room((1, 0), &name);
    assert_eq!(g.gamestate.keys, 1);
    assert_eq!(g.gamestate.messages.len(), 1);
    assert_eq!(g.gamestate.messages[0].text, "Alice has picked up a key!");
    assert!(g.gamestate.map.room(1, 0).unwrap().item.is_none());
    // clearing again changes nothing
    g.clear_room((1, 0), &name);
    assert_eq!(g.gamestate.keys, 1);
    assert_eq!(g.gamestate.messages.len(), 1);
}

#[test]
fn clearing_a_curse_announces_it() {
    let mut g = blank_game();
    g.reveal_room((1, 0), draw(0, 1, 0, 0));
    g.clear_room((1, 0), &"Bob".to_string());
    assert_eq!(g.gamestate.keys, 0);
    assert_eq!(g.gamestate.messages[0].text, "Bob has been cursed!");
    assert!(g.gamestate.map.room(1, 0).unwrap().item.is_none());
}

#[test]
fn key_count_stops_at_eight() {
    let mut g = blank_game();
    g.gamestate.keys = 7;
    g.add_room((1, 0));
    g.add_room((2, 0));
    g.assign_item((1, 0), draw(0, 3, 0, 0));
    g.assign_item((2, 0), draw(0, 3, 0, 0));
    let name = "Alice".to_string();
    g.clear_room((1, 0), &name);
    assert_eq!(g.gamestate.keys, 8);
    g.clear_room((2, 0), &name);
    assert_eq!(g.gamestate.keys, 8);
    assert!(g.gamestate.map.room(2, 0).unwrap().item.is_none());
    assert_eq!(g.gamestate.messages.len(), 2);
}

#[test]
fn clearing_an_unknown_room_is_ignored() {
    let mut g = blank_game();
    g.clear_room((3, 3), &"Alice".to_string());
    assert_eq!(g.gamestate.keys, 0);
    assert!(g.gamestate.messages.is_empty());
}

#[test]
fn spawn_points_avoid_the_exit_room_when_they_can() {
    let mut g = blank_game();
    assert_eq!(g.gamestate.spawn_point(12345), Position { x: 128, y: 128 });
    g.add_room((1, 0));
    g.add_room((2, 0));
    // two rooms besides the exit: roll 0 picks the first, roll 1 the second
    assert_eq!(g.gamestate.spawn_point(0), Position { x: 384, y: 128 });
    assert_eq!(g.gamestate.spawn_point(1), Position { x: 640, y: 128 });
    assert_eq!(g.gamestate.spawn_point(2), Position { x: 384, y: 128 });
}

#[test]
fn players_join_update_and_get_ready() {
    let mut g = blank_game();
    g.add_room((0, -1));
    g.add_player("id-alice".to_string(), "Alice".to_string(), 0);
    g.add_player("id-bob".to_string(), "Bob".to_string(), 7);
    assert_eq!(g.gamestate.players.len(), 2);
    let (id, alice): &(String, Player) = &g.gamestate.players[0];
    assert_eq!(id, "id-alice");
    assert_eq!(alice.name, "Alice");
    assert_eq!(alice.position, Position { x: 128, y: -128 });
    assert!(!alice.ready);
    assert!(!g.all_players_ready());
    let pos = Position { x: 10, y: 20 };
    assert_eq!(g.update_player(&"id-alice".to_string(), pos, true), Some(()));
    assert_eq!(g.gamestate.players[0].1.position, pos);
    assert!(!g.all_players_ready());
    assert_eq!(g.update_player(&"id-bob".to_string(), pos, true), Some(()));
    assert!(g.all_players_ready());
    assert_eq!(g.update_player(&"nobody".to_string(), pos, true), None);
    // joining again under a known identifier replaces that player
    g.add_player("id-alice".to_string(), "Carol".to_string(), 0);
    assert_eq!(g.gamestate.players.len(), 2);
    assert_eq!(g.gamestate.players[0].1.name, "Carol");
}

#[test]
fn new_game_is_pregenerated_with_items() {
    let g = ServerGamestate::new();
    assert!(g.gamestate.map.rooms.len() > 1);
    assert!(g.gamestate.map.room(0, 0).is_some());
    assert_eq!(g.gamestate.round, 1);
    assert_eq!(g.gamestate.keys, 0);
    assert!(!g.gamestate.started);
    assert!(g.gamestate.map.room(0, 0).unwrap().item.is_none());
    let items: Vec<Item> =
        g.gamestate.map.rooms.iter().filter_map(|r| r.item.map(|(i, _)| i)).collect();
    assert!(!items.is_empty());
    for kind in [Item::Clear, Item::Spin, Item::Bad] {
        assert!(items.iter().filter(|i| **i == kind).count() <= 1);
    }
    for r in &g.gamestate.map.rooms {
        if let Some((_, (x, y))) = r.item {
            assert!((4..12).contains(&x) && (4..12).contains(&y));
        }
    }
}
