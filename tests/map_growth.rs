use lycan::gamestate::{GameMap, Gamestate, Message};
use lycan::room::Room;

fn doors(g: &Gamestate, x: i32, y: i32) -> (bool, bool, bool, bool) {
    let r = g.map.room(x, y).unwrap();
    (r.doors.up, r.doors.down, r.doors.left, r.doors.right)
}

#[test]
fn default_map_holds_the_exit_room() {
    let map = GameMap::default();
    assert_eq!(map.rooms.len(), 1);
    assert!(map.room(0, 0).is_some());
    assert!(map.room(1, 0).is_none());
    let g = Gamestate::default();
    assert_eq!(g.round, 1);
    assert_eq!(g.keys, 0);
    assert!(!g.started);
    assert!(g.players.is_empty());
    assert!(g.messages.is_empty());
}

#[test]
fn reveal_twice_is_a_no_op() {
    let mut g = Gamestate::default();
    assert!(g.add_room((1, 0)));
    assert!(g.add_room((0, 1)));
    let count = g.map.rooms.len();
    let before: Vec<_> = g.map.rooms.iter().map(|r| (r.position, r.doors)).collect();
    assert!(!g.add_room((0, 1)));
    assert_eq!(g.map.rooms.len(), count);
    let after: Vec<_> = g.map.rooms.iter().map(|r| (r.position, r.doors)).collect();
    assert_eq!(before, after);
}

#[test]
fn single_reveal_next_to_exit_prunes_nothing() {
    let mut g = Gamestate::default();
    assert!(g.add_room((1, 0)));
    assert_eq!(doors(&g, 0, 0), (true, true, true, true));
    assert_eq!(doors(&g, 1, 0), (true, true, true, true));
}

#[test]
fn reveal_closes_doors_toward_a_crowded_cell() {
    let mut g = Gamestate::default();
    g.add_room((1, 0));
    g.add_room((0, 1));
    // (1, 1) is now touched by (1, 0) and (0, 1): both doors toward it close
    assert_eq!(doors(&g, 1, 0), (false, true, true, true));
    assert_eq!(doors(&g, 0, 1), (true, true, true, false));
    assert_eq!(doors(&g, 0, 0), (true, true, true, true));
}

#[test]
fn two_by_two_block_orders() {
    let mut a = Gamestate::default();
    for p in [(1, 0), (0, 1), (1, 1)] {
        a.add_room(p);
    }
    let mut b = Gamestate::default();
    for p in [(1, 0), (1, 1), (0, 1)] {
        b.add_room(p);
    }
    // same rooms either way
    for p in [(0, 0), (1, 0), (0, 1), (1, 1)] {
        assert!(a.map.room(p.0, p.1).is_some());
        assert!(b.map.room(p.0, p.1).is_some());
    }
    // the closed doors depend on the order: the cell that was crowded differs
    assert_eq!(doors(&a, 1, 0), (false, true, true, true));
    assert_eq!(doors(&a, 0, 1), (true, true, true, false));
    assert_eq!(doors(&b, 0, 0), (false, true, true, true));
    assert_eq!(doors(&b, 1, 1), (true, true, false, true));
    // either way no cycle of open links remains: at most three of the four
    // inner links are open
    let open_links = |g: &Gamestate| {
        let d00 = doors(g, 0, 0);
        let d10 = doors(g, 1, 0);
        let d01 = doors(g, 0, 1);
        let d11 = doors(g, 1, 1);
        [
            d00.3 && d10.2,
            d00.0 && d01.1,
            d10.0 && d11.1,
            d01.3 && d11.2,
        ]
        .iter()
        .filter(|l| **l)
        .count()
    };
    assert!(open_links(&a) <= 3);
    assert!(open_links(&b) <= 3);
}

#[test]
fn frontier_cell_has_one_open_way() {
    let mut g = Gamestate::default();
    for p in [(1, 0), (2, 0), (2, 1), (2, 2), (1, 2)] {
        g.add_room(p);
    }
    // (1, 1) is unrevealed and touched by (1, 0), (2, 1) and (1, 2): every one
    // of them has its door toward (1, 1) closed
    assert!(!doors(&g, 1, 0).0);
    assert!(!doors(&g, 2, 1).2);
    assert!(!doors(&g, 1, 2).1);
}

#[test]
fn room_degree_counts_revealed_neighbours() {
    let mut g = Gamestate::default();
    g.add_room((1, 0));
    g.add_room((0, 1));
    assert_eq!(g.map.room_degree((1, 1)), 2);
    assert_eq!(g.map.room_degree((0, 0)), 2);
    assert_eq!(g.map.room_degree((5, 5)), 0);
    assert_eq!(g.map.room_degree((-1, 0)), 1);
}

#[test]
fn extreme_coordinates_do_not_overflow() {
    let mut g = Gamestate::default();
    assert!(g.add_room((i32::MAX, i32::MIN)));
    assert!(g.add_room((i32::MAX, i32::MIN + 1)));
    assert_eq!(g.map.room_degree((i32::MAX, i32::MIN)), 1);
    assert_eq!(doors(&g, i32::MAX, i32::MIN), (true, true, true, true));
}

#[test]
fn map_lookup_and_mutation() {
    let mut map = GameMap::default();
    map.add_room((2, 3), Room::new((2, 3)));
    assert_eq!(map.rooms.len(), 2);
    assert_eq!(map.room(2, 3).unwrap().position, (2, 3));
    map.mut_room(2, 3).unwrap().doors.left = false;
    assert!(!map.room(2, 3).unwrap().doors.left);
    map.room_mut(2, 3).unwrap().doors.left = true;
    assert!(map.room(2, 3).unwrap().doors.left);
    assert!(map.mut_room(4, 4).is_none());
    // putting a room where one stands replaces it
    let mut other = Room::new((2, 3));
    other.doors.up = false;
    map.add_room((2, 3), other);
    assert_eq!(map.rooms.len(), 2);
    assert!(!map.room(2, 3).unwrap().doors.up);
    assert_eq!(map.find(2, 3), Some(1));
    assert_eq!(map.find(9, 9), None);
}

#[test]
fn next_round_of_gamestate_resets_round_state() {
    let mut g = Gamestate::default();
    g.add_room((1, 0));
    g.keys = 5;
    g.started = true;
    g.messages.push(Message::new("hello".to_string()));
    g.next_round();
    assert_eq!(g.map.rooms.len(), 1);
    assert!(g.map.room(0, 0).is_some());
    assert_eq!(g.keys, 0);
    assert_eq!(g.round, 2);
    assert!(g.messages.is_empty());
    assert!(g.started);
}

#[test]
fn message_keeps_its_text() {
    assert_eq!(Message::new("a line".to_string()).text, "a line");
}
