use vstd::prelude::*;

use crate::economy::{
    curse_after, curse_result, curse_used, draw_places, drawn_kind, drawn_tile, no_curses, Curses,
    ItemDraw,
};
use crate::gamestate::{
    coord, degree, fresh_room, frontier_safe, grown, has_player, has_room, lemma_grown_shape,
    lemma_exit_room_alone_is_tree, lemma_growth_keeps_tree, lemma_items_none_after_reveals,
    lemma_grown_items, lemma_reveal_all_push, lemma_room_at, lemma_same_layout,
    lemma_same_layout_grown, reveal_all, same_layout, tree_like,
    lemma_same_positions, pos, room_at, room_center, spawn_index, unique_ids, Gamestate, Message,
    Player, Position, KEYS_TO_EXIT,
};
use crate::random::{new_uuid, random_u32};
use crate::room::{Item, Room};

verus! {

// ---------------------------------------------------------------------------
// Messages
// ---------------------------------------------------------------------------

pub open spec fn key_message(name: Seq<char>) -> Seq<char> {
    name + " has picked up a key!"@
}

pub open spec fn curse_message(name: Seq<char>) -> Seq<char> {
    name + " has been cursed!"@
}

pub open spec fn exit_message(name: Seq<char>) -> Seq<char> {
    name + " has found the exit, a new round is starting!"@
}

fn announce(name: &String, tail: &str) -> (r: Message)
    ensures
        r.text@ == name@ + tail@,
{
    let mut text = name.clone();
    text.append(tail);
    Message::new(text)
}

// ---------------------------------------------------------------------------
// One game
// ---------------------------------------------------------------------------

/// A room of `rooms` with its item replaced.
pub open spec fn with_item(r: Room, item: Option<(Item, (u32, u32))>) -> Room {
    Room { item, ..r }
}

/// The index of the player registered under `id`, if any.
pub fn find_player(players: &Vec<(String, Player)>, id: &String) -> (r: Option<usize>)
    ensures
        match r {
            Some(i) => i < players@.len() && players@[i as int].0@ == id@,
            None => !has_player(players@, id@),
        },
{
    let mut i: usize = 0;
    while i < players.len()
        invariant
            i <= players@.len(),
            forall|j: int| 0 <= j < i ==> (#[trigger] players@[j]).0@ != id@,
        decreases players@.len() - i,
    {
        if players[i].0 == *id {
            return Some(i);
        }
        i += 1;
    }
    None
}

/// `new` is `old` with one more message, whose text is `text`.
pub open spec fn logged(old: Seq<Message>, new: Seq<Message>, text: Seq<char>) -> bool {
    &&& new.len() == old.len() + 1
    &&& forall|j: int| 0 <= j < old.len() ==> #[trigger] new[j] == old[j]
    &&& new[old.len() as int].text@ == text
}

/// Every registered player is ready.
pub open spec fn all_ready(players: Seq<(String, Player)>) -> bool {
    forall|i: int| 0 <= i < players.len() ==> (#[trigger] players[i]).1.ready
}

/// The player registered under `id` (meaningful where there is one).
pub open spec fn player_named(players: Seq<(String, Player)>, id: Seq<char>) -> Player {
    players[choose|i: int| 0 <= i < players.len() && players[i].0@ == id].1
}

/// Where identifiers are unique, the player named by `id` is the one at any
/// index that holds `id`.
pub proof fn lemma_player_named(players: Seq<(String, Player)>, id: Seq<char>, i: int)
    requires
        unique_ids(players),
        0 <= i < players.len(),
        players[i].0@ == id,
    ensures
        player_named(players, id) == players[i].1,
{
    let j = choose|j: int| 0 <= j < players.len() && players[j].0@ == id;
    if j < i {
        assert(players[j].0@ != players[i].0@);
    } else if i < j {
        assert(players[i].0@ != players[j].0@);
    }
}

/// What an accepted update does to a game, from `o` to `n`: see
/// `ServerGamestate::apply_update`.
pub open spec fn updated(
    o: ServerGamestate,
    n: ServerGamestate,
    player_id: Seq<char>,
    position: Position,
    new_rooms: Seq<(i32, i32)>,
    cleared_rooms: Seq<(i32, i32)>,
    ready: bool,
    end: bool,
) -> bool {
    &&& end ==> {
        &&& n.gamestate.map.rooms@ == seq![fresh_room((0, 0))]
        &&& n.gamestate.keys == 0
        &&& n.gamestate.round == if o.gamestate.round < u32::MAX {
            o.gamestate.round + 1
        } else {
            o.gamestate.round as int
        }
        &&& n.curses == no_curses()
        &&& n.gamestate.started == o.gamestate.started
        &&& n.gamestate.messages@.len() == 1
        &&& n.gamestate.messages@[0].text@ == exit_message(
            player_named(o.gamestate.players@, player_id).name@,
        )
        &&& n.gamestate.players@.len() == o.gamestate.players@.len()
        &&& forall|i: int|
            0 <= i < o.gamestate.players@.len() ==> #[trigger] n.gamestate.players@[i]
                == (
                o.gamestate.players@[i].0,
                Player {
                    position: Position { x: 128, y: 128 },
                    ..o.gamestate.players@[i].1
                },
            )
    }
    &&& !end ==> {
        &&& exists|i: int|
            0 <= i < o.gamestate.players@.len()
                && o.gamestate.players@[i].0@ == player_id
                && n.gamestate.players@ == o.gamestate.players@.update(
                i,
                (
                    o.gamestate.players@[i].0,
                    Player { position, ready, ..o.gamestate.players@[i].1 },
                ),
            )
        &&& n.gamestate.started == (o.gamestate.started || all_ready(
            n.gamestate.players@,
        ))
        &&& n.gamestate.round == o.gamestate.round
        &&& exists|mid: Seq<Room>|
            grown_with_items(
                o.gamestate.map.rooms@,
                o.curses,
                o.gamestate.keys,
                new_rooms,
                mid,
                n.curses,
            ) && (n.gamestate.map.rooms@, n.gamestate.keys as int, texts(n.gamestate.messages@))
                == clear_all(
                (mid, o.gamestate.keys as int, texts(o.gamestate.messages@)),
                cleared_rooms,
                player_named(o.gamestate.players@, player_id).name@,
            )
        &&& n.gamestate.keys >= o.gamestate.keys
        &&& forall|q: (int, int)|
            o.gamestate.map.has(q) ==> #[trigger] n.gamestate.map.has(q)
        &&& forall|k: int|
            0 <= k < new_rooms.len() ==> n.gamestate.map.has(
                coord(#[trigger] new_rooms[k]),
            )
        &&& forall|k: int, i: int|
            0 <= k < cleared_rooms.len() && 0 <= i < n.gamestate.map.rooms@.len()
                && pos(#[trigger] n.gamestate.map.rooms@[i]) == coord(
                #[trigger] cleared_rooms[k],
            ) ==> n.gamestate.map.rooms@[i].item.is_none()
        &&& n.gamestate.messages@.len() >= o.gamestate.messages@.len()
        &&& forall|j: int|
            0 <= j < o.gamestate.messages@.len() ==> #[trigger] n.gamestate.messages@[j]
                == o.gamestate.messages@[j]
    }
}

/// The items of a map are fair: none lies in the exit room, each lies on an
/// interior tile, each curse on the map is recorded by `curses`, and no curse
/// kind lies in two rooms.
pub open spec fn items_fair(rooms: Seq<Room>, curses: Curses) -> bool {
    &&& forall|i: int|
        0 <= i < rooms.len() && (#[trigger] rooms[i]).item is Some ==> {
            let (k, t) = rooms[i].item.unwrap();
            &&& pos(rooms[i]) != (0int, 0int)
            &&& 4 <= t.0 <= 11 && 4 <= t.1 <= 11
            &&& k != Item::Key ==> curse_used(curses, k)
        }
    &&& forall|i: int, j: int|
        0 <= i < j < rooms.len() && (#[trigger] rooms[i]).item is Some && (#[trigger] rooms[j]).item is Some
            && rooms[i].item.unwrap().0 == rooms[j].item.unwrap().0 ==> rooms[i].item.unwrap().0
            == Item::Key
}

/// The texts of a log, oldest first.
pub open spec fn texts(ms: Seq<Message>) -> Seq<Seq<char>> {
    ms.map_values(|m: Message| m.text@)
}

/// The item of the room at `p`, if there is such a room.
pub open spec fn item_at(rooms: Seq<Room>, p: (int, int)) -> Option<(Item, (u32, u32))> {
    if has_room(rooms, p) {
        room_at(rooms, p).item
    } else {
        None
    }
}

/// `rooms` with the room at `p`, if any, emptied of its item.
pub open spec fn emptied_at(rooms: Seq<Room>, p: (int, int)) -> Seq<Room> {
    Seq::new(
        rooms.len(),
        |i: int|
            if pos(rooms[i]) == p {
                with_item(rooms[i], None)
            } else {
                rooms[i]
            },
    )
}

/// Rooms, key count and log texts after player `name` clears the room at `p`:
/// a key counts (up to the count that opens the exit) and is announced, a
/// curse is announced, and the room is left without an item.
pub open spec fn clear_step(
    st: (Seq<Room>, int, Seq<Seq<char>>),
    p: (int, int),
    name: Seq<char>,
) -> (Seq<Room>, int, Seq<Seq<char>>) {
    let (rooms, keys, log) = st;
    match item_at(rooms, p) {
        Some((Item::Key, _)) => (
            emptied_at(rooms, p),
            if keys < KEYS_TO_EXIT {
                keys + 1
            } else {
                keys
            },
            log.push(key_message(name)),
        ),
        Some(_) => (emptied_at(rooms, p), keys, log.push(curse_message(name))),
        None => (emptied_at(rooms, p), keys, log),
    }
}

/// `clear_step` for each of `ps` in turn.
pub open spec fn clear_all(
    st: (Seq<Room>, int, Seq<Seq<char>>),
    ps: Seq<(i32, i32)>,
    name: Seq<char>,
) -> (Seq<Room>, int, Seq<Seq<char>>)
    decreases ps.len(),
{
    if ps.len() == 0 {
        st
    } else {
        clear_step(clear_all(st, ps.drop_last(), name), coord(ps.last()), name)
    }
}

/// The rooms `m` and tracker `mc` after revealing each of `new_rooms` from
/// `rooms`, tracker `c` and key count `keys`: the map has the shape that the
/// reveals give, the rooms that were there keep their items, and a room
/// added here holds no item, or (while the exit is shut) an item on an
/// interior tile whose curse kind, if any, was not used before and is
/// recorded now, no two added rooms sharing a curse kind.
pub open spec fn grown_with_items(
    rooms: Seq<Room>,
    c: Curses,
    keys: u32,
    new_rooms: Seq<(i32, i32)>,
    m: Seq<Room>,
    mc: Curses,
) -> bool {
    &&& same_layout(m, reveal_all(rooms, new_rooms))
    &&& m.len() >= rooms.len()
    &&& forall|i: int| 0 <= i < rooms.len() ==> (#[trigger] m[i]).item == rooms[i].item
    &&& forall|k: Item| #[trigger] curse_used(c, k) ==> curse_used(mc, k)
    &&& forall|i: int|
        rooms.len() <= i < m.len() && (#[trigger] m[i]).item is Some ==> {
            let (k, t) = m[i].item.unwrap();
            &&& keys < KEYS_TO_EXIT
            &&& 4 <= t.0 <= 11 && 4 <= t.1 <= 11
            &&& k != Item::Key ==> !curse_used(c, k) && curse_used(mc, k)
        }
    &&& forall|i: int, j: int|
        rooms.len() <= i < j < m.len() && (#[trigger] m[i]).item is Some && (#[trigger] m[j]).item is Some
            && m[i].item.unwrap().0 == m[j].item.unwrap().0 ==> m[i].item.unwrap().0 == Item::Key
}

/// A game together with its per-round curse tracker.
#[derive(Debug)]
pub struct ServerGamestate {
    pub gamestate: Gamestate,
    pub curses: Curses,
}

impl ServerGamestate {
    pub open spec fn wf(&self) -> bool {
        self.gamestate.wf()
    }

    /// Asks for an item of kind `curse`: a key comes out for a key, and for a
    /// curse kind that was already handed out this round.
    pub fn curse(&mut self, curse: Item) -> (r: Item)
        ensures
            r == curse_result(old(self).curses, curse),
            final(self).curses == curse_after(old(self).curses, curse),
            final(self).gamestate == old(self).gamestate,
    {
        let used = match curse {
            Item::Key => false,
            Item::Clear => self.curses.clear,
            Item::Spin => self.curses.spin,
            Item::Bad => self.curses.bad,
        };
        match curse {
            Item::Key => {},
            Item::Clear => self.curses.clear = true,
            Item::Spin => self.curses.spin = true,
            Item::Bad => self.curses.bad = true,
        }
        if used {
            Item::Key
        } else {
            curse
        }
    }

    /// Reveals `position` without placing any item.
    pub fn add_room(&mut self, position: (i32, i32)) -> (r: bool)
        ensures
            r == !old(self).gamestate.map.has(coord(position)),
            final(self).gamestate.map.rooms@ == grown(old(self).gamestate.map.rooms@, position),
            old(self).wf() ==> final(self).wf(),
            final(self).gamestate.players == old(self).gamestate.players,
            final(self).gamestate.keys == old(self).gamestate.keys,
            final(self).gamestate.messages == old(self).gamestate.messages,
            final(self).gamestate.round == old(self).gamestate.round,
            final(self).gamestate.started == old(self).gamestate.started,
            final(self).curses == old(self).curses,
    {
        self.gamestate.add_room(position)
    }

    /// Puts the item that `draw` decides into the room at `position`, through
    /// the curse tracker. A coordinate without a room is left alone.
    pub fn assign_item(&mut self, position: (i32, i32), draw: ItemDraw)
        ensures
            !old(self).gamestate.map.has(coord(position)) ==> *final(self) == *old(self),
            old(self).wf() ==> final(self).wf(),
            final(self).gamestate.map.rooms@.len() == old(self).gamestate.map.rooms@.len(),
            forall|i: int|
                0 <= i < old(self).gamestate.map.rooms@.len() ==> pos(
                    #[trigger] final(self).gamestate.map.rooms@[i],
                ) == pos(old(self).gamestate.map.rooms@[i]),
            old(self).gamestate.map.has(coord(position)) ==> {
                &&& final(self).curses == curse_after(old(self).curses, drawn_kind(draw))
                &&& exists|i: int|
                    0 <= i < old(self).gamestate.map.rooms@.len() && pos(
                        old(self).gamestate.map.rooms@[i],
                    ) == coord(position) && final(self).gamestate.map.rooms@
                        == old(self).gamestate.map.rooms@.update(
                        i,
                        with_item(
                            old(self).gamestate.map.rooms@[i],
                            Some((curse_result(old(self).curses, drawn_kind(draw)), drawn_tile(draw))),
                        ),
                    )
                &&& final(self).gamestate.players == old(self).gamestate.players
                &&& final(self).gamestate.keys == old(self).gamestate.keys
                &&& final(self).gamestate.messages == old(self).gamestate.messages
                &&& final(self).gamestate.round == old(self).gamestate.round
                &&& final(self).gamestate.started == old(self).gamestate.started
            },
    {
        match self.gamestate.map.find(position.0 as i64, position.1 as i64) {
            Some(i) => {
                let item = self.curse(draw.kind_item());
                let mut room = self.gamestate.map.rooms[i];
                room.item = Some((item, draw.tile()));
                self.gamestate.map.rooms.set(i, room);
                proof {
                    lemma_same_positions(old(self).gamestate.map.rooms@, self.gamestate.map.rooms@);
                    assert(pos(self.gamestate.map.rooms@[0]) == pos(old(self).gamestate.map.rooms@[0]));
                }
            },
            None => {},
        }
    }

    /// Reveals `position`; where that adds a room while the exit is still
    /// shut, the room gets the item that `draw` decides on one draw in two.
    pub fn reveal_room(&mut self, position: (i32, i32), draw: ItemDraw) -> (r: bool)
        ensures
            r == !old(self).gamestate.map.has(coord(position)),
            old(self).wf() ==> final(self).wf(),
            forall|q: (int, int)|
                #[trigger] final(self).gamestate.map.has(q) == (old(self).gamestate.map.has(q) || q
                    == coord(position)),
            ({
                let g = grown(old(self).gamestate.map.rooms@, position);
                let n = old(self).gamestate.map.rooms@.len() as int;
                if r && old(self).gamestate.keys < KEYS_TO_EXIT && draw_places(draw) {
                    &&& final(self).curses == curse_after(old(self).curses, drawn_kind(draw))
                    &&& final(self).gamestate.map.rooms@ == g.update(
                        n,
                        with_item(
                            g[n],
                            Some((curse_result(old(self).curses, drawn_kind(draw)), drawn_tile(draw))),
                        ),
                    )
                } else {
                    &&& final(self).curses == old(self).curses
                    &&& final(self).gamestate.map.rooms@ == g
                }
            }),
            final(self).gamestate.players == old(self).gamestate.players,
            final(self).gamestate.keys == old(self).gamestate.keys,
            final(self).gamestate.messages == old(self).gamestate.messages,
            final(self).gamestate.round == old(self).gamestate.round,
            final(self).gamestate.started == old(self).gamestate.started,
    {
        proof {
            lemma_grown_shape(old(self).gamestate.map.rooms@, position);
        }
        let added = self.add_room(position);
        if added && self.gamestate.keys < KEYS_TO_EXIT && draw.chance % 2 == 0 {
            let ghost mid = self.gamestate.map.rooms@;
            self.assign_item(position, draw);
            proof {
                lemma_same_positions(mid, self.gamestate.map.rooms@);
                if old(self).wf() {
                    let n = old(self).gamestate.map.rooms@.len() as int;
                    let i = choose|i: int|
                        0 <= i < mid.len() && pos(mid[i]) == coord(position) && self.gamestate.map.rooms@
                            == mid.update(
                            i,
                            with_item(
                                mid[i],
                                Some(
                                    (
                                        curse_result(old(self).curses, drawn_kind(draw)),
                                        drawn_tile(draw),
                                    ),
                                ),
                            ),
                        );
                    assert(pos(mid[n]) == coord(position));
                    assert(i == n);
                    assert forall|a: int, b: int|
                        0 <= a < b < self.gamestate.map.rooms@.len() implies pos(
                        self.gamestate.map.rooms@[a],
                    ) != pos(self.gamestate.map.rooms@[b]) by {
                        assert(pos(self.gamestate.map.rooms@[a]) == pos(mid[a]));
                        assert(pos(self.gamestate.map.rooms@[b]) == pos(mid[b]));
                    }
                    assert(pos(self.gamestate.map.rooms@[0]) == pos(mid[0]));
                }
            }
        }
        proof {
            let g = grown(old(self).gamestate.map.rooms@, position);
            lemma_same_positions(g, self.gamestate.map.rooms@);
            assert forall|q: (int, int)| #[trigger] self.gamestate.map.has(q) == (old(self).gamestate.map.has(q) || q == coord(position)) by {
                assert(has_room(g, q) == has_room(self.gamestate.map.rooms@, q));
            }
        }
        added
    }

    /// Empties the room at `position` of its item. A key raises the key count,
    /// up to the count that opens the exit, and is announced; a curse is
    /// announced. A coordinate without a room, or a room without an item, is
    /// left alone.
    pub fn clear_room(&mut self, position: (i32, i32), name: &String)
        requires
            old(self).wf(),
        ensures
            final(self).wf(),
            (final(self).gamestate.map.rooms@, final(self).gamestate.keys as int, texts(
                final(self).gamestate.messages@,
            )) == clear_step(
                (
                    old(self).gamestate.map.rooms@,
                    old(self).gamestate.keys as int,
                    texts(old(self).gamestate.messages@),
                ),
                coord(position),
                name@,
            ),
            final(self).gamestate.map.rooms@.len() == old(self).gamestate.map.rooms@.len(),
            forall|i: int|
                0 <= i < old(self).gamestate.map.rooms@.len() ==> #[trigger] final(self).gamestate.map.rooms@[i] == if pos(old(self).gamestate.map.rooms@[i]) == coord(
                    position,
                ) {
                    with_item(old(self).gamestate.map.rooms@[i], None)
                } else {
                    old(self).gamestate.map.rooms@[i]
                },
            ({
                let item = if old(self).gamestate.map.has(coord(position)) {
                    room_at(old(self).gamestate.map.rooms@, coord(position)).item
                } else {
                    None
                };
                match item {
                    Some((Item::Key, _)) => {
                        &&& final(self).gamestate.keys == if old(self).gamestate.keys < KEYS_TO_EXIT {
                            old(self).gamestate.keys + 1
                        } else {
                            old(self).gamestate.keys as int
                        }
                        &&& logged(
                            old(self).gamestate.messages@,
                            final(self).gamestate.messages@,
                            key_message(name@),
                        )
                    },
                    Some(_) => {
                        &&& final(self).gamestate.keys == old(self).gamestate.keys
                        &&& logged(
                            old(self).gamestate.messages@,
                            final(self).gamestate.messages@,
                            curse_message(name@),
                        )
                    },
                    None => {
                        &&& final(self).gamestate.keys == old(self).gamestate.keys
                        &&& final(self).gamestate.messages == old(self).gamestate.messages
                    },
                }
            }),
            final(self).gamestate.players == old(self).gamestate.players,
            final(self).gamestate.round == old(self).gamestate.round,
            final(self).gamestate.started == old(self).gamestate.started,
            final(self).curses == old(self).curses,
    {
        match self.gamestate.map.find(position.0 as i64, position.1 as i64) {
            Some(i) => {
                let mut room = self.gamestate.map.rooms[i];
                match room.item {
                    Some((Item::Key, _)) => {
                        if self.gamestate.keys < KEYS_TO_EXIT {
                            self.gamestate.keys = self.gamestate.keys + 1;
                        }
                        self.gamestate.messages.push(announce(name, " has picked up a key!"));
                    },
                    Some(_) => {
                        self.gamestate.messages.push(announce(name, " has been cursed!"));
                    },
                    None => {},
                }
                room.item = None;
                self.gamestate.map.rooms.set(i, room);
                proof {
                    let rooms = old(self).gamestate.map.rooms@;
                    let p = coord(position);
                    lemma_room_at(rooms, p, i as int);
                    assert forall|j: int| 0 <= j < rooms.len() && pos(rooms[j]) == p implies j
                        == i by {}
                    lemma_same_positions(rooms, self.gamestate.map.rooms@);
                    assert forall|a: int, b: int|
                        0 <= a < b < self.gamestate.map.rooms@.len() implies pos(
                        self.gamestate.map.rooms@[a],
                    ) != pos(self.gamestate.map.rooms@[b]) by {
                        assert(pos(self.gamestate.map.rooms@[a]) == pos(rooms[a]));
                        assert(pos(self.gamestate.map.rooms@[b]) == pos(rooms[b]));
                    }
                    assert(pos(self.gamestate.map.rooms@[0]) == pos(rooms[0]));
                    assert(self.gamestate.map.rooms@ =~= emptied_at(rooms, p));
                    let om = old(self).gamestate.messages@;
                    let nm = self.gamestate.messages@;
                    if nm.len() == om.len() + 1 {
                        assert(texts(nm) =~= texts(om).push(nm[om.len() as int].text@)) by {
                            assert forall|j: int| 0 <= j < om.len() implies nm[j] == om[j] by {}
                        }
                    } else {
                        assert(texts(nm) =~= texts(om));
                    }
                }
            },
            None => {
                proof {
                    let rooms = old(self).gamestate.map.rooms@;
                    assert forall|i: int| 0 <= i < rooms.len() implies pos(rooms[i]) != coord(
                        position,
                    ) by {}
                    assert(self.gamestate.map.rooms@ =~= rooms);
                    assert(emptied_at(rooms, coord(position)) =~= rooms);
                }
            },
        }
    }

    /// Registers a player under `uuid`, not ready, at the centre of the room
    /// that `roll` picks (`spawn_index`); an identifier that is already known
    /// has its player replaced.
    pub fn add_player(&mut self, uuid: String, player_name: String, roll: u32)
        requires
            old(self).wf(),
        ensures
            final(self).wf(),
            ({
                let entry = (
                    uuid,
                    Player {
                        name: player_name,
                        position: room_center(
                            old(self).gamestate.map.rooms@[spawn_index(
                                old(self).gamestate.map.rooms@.len() as int,
                                roll,
                            )],
                        ),
                        ready: false,
                    },
                );
                if has_player(old(self).gamestate.players@, uuid@) {
                    exists|i: int|
                        0 <= i < old(self).gamestate.players@.len()
                            && old(self).gamestate.players@[i].0@ == uuid@
                            && final(self).gamestate.players@ == old(self).gamestate.players@.update(i, entry)
                } else {
                    final(self).gamestate.players@ == old(self).gamestate.players@.push(entry)
                }
            }),
            final(self).gamestate.map == old(self).gamestate.map,
            final(self).gamestate.keys == old(self).gamestate.keys,
            final(self).gamestate.messages == old(self).gamestate.messages,
            final(self).gamestate.round == old(self).gamestate.round,
            final(self).gamestate.started == old(self).gamestate.started,
            final(self).curses == old(self).curses,
    {
        let position = self.gamestate.spawn_point(roll);
        let found = find_player(&self.gamestate.players, &uuid);
        let player = Player { name: player_name, position, ready: false };
        match found {
            Some(i) => {
                self.gamestate.players.set(i, (uuid, player));
            },
            None => {
                self.gamestate.players.push((uuid, player));
            },
        }
        proof {
            let ps = old(self).gamestate.players@;
            let nps = self.gamestate.players@;
            assert forall|a: int, b: int| 0 <= a < b < nps.len() implies nps[a].0@ != nps[b].0@ by {
                if b == ps.len() {
                    assert(ps[a].0@ == nps[a].0@);
                }
            }
        }
    }

    /// Moves the player registered under `player_id` and sets its readiness;
    /// `None`, with nothing changed, where no such player is registered.
    pub fn update_player(&mut self, player_id: &String, position: Position, ready: bool) -> (r:
        Option<()>)
        requires
            old(self).wf(),
        ensures
            final(self).wf(),
            r.is_some() == has_player(old(self).gamestate.players@, player_id@),
            r.is_none() ==> *final(self) == *old(self),
            r.is_some() ==> exists|i: int|
                0 <= i < old(self).gamestate.players@.len()
                    && old(self).gamestate.players@[i].0@ == player_id@
                    && final(self).gamestate.players@ == old(self).gamestate.players@.update(
                    i,
                    (
                        old(self).gamestate.players@[i].0,
                        Player { position, ready, ..old(self).gamestate.players@[i].1 },
                    ),
                ),
            final(self).gamestate.map == old(self).gamestate.map,
            final(self).gamestate.keys == old(self).gamestate.keys,
            final(self).gamestate.messages == old(self).gamestate.messages,
            final(self).gamestate.round == old(self).gamestate.round,
            final(self).gamestate.started == old(self).gamestate.started,
            final(self).curses == old(self).curses,
    {
        match find_player(&self.gamestate.players, player_id) {
            Some(i) => {
                self.gamestate.players[i].1.position = position;
                self.gamestate.players[i].1.ready = ready;
                proof {
                    let ps = old(self).gamestate.players@;
                    assert(self.gamestate.players@ =~= ps.update(
                        i as int,
                        (ps[i as int].0, Player { position, ready, ..ps[i as int].1 }),
                    ));
                    let nps = self.gamestate.players@;
                    assert forall|a: int, b: int| 0 <= a < b < nps.len() implies nps[a].0@
                        != nps[b].0@ by {
                        assert(nps[a].0 == ps[a].0);
                        assert(nps[b].0 == ps[b].0);
                    }
                }
                Some(())
            },
            None => None,
        }
    }

    /// Whether every registered player is ready (true where there are none).
    pub fn all_players_ready(&self) -> (r: bool)
        ensures
            r == all_ready(self.gamestate.players@),
    {
        let mut i: usize = 0;
        while i < self.gamestate.players.len()
            invariant
                i <= self.gamestate.players@.len(),
                forall|j: int| 0 <= j < i ==> (#[trigger] self.gamestate.players@[j]).1.ready,
            decreases self.gamestate.players@.len() - i,
        {
            if !self.gamestate.players[i].1.ready {
                return false;
            }
            i += 1;
        }
        true
    }

    /// Starts the next round: a map that holds the exit room alone, no keys,
    /// the next round number, an empty log, a fresh curse tracker, and every
    /// player moved to a spawn point of the new map, the centre of the exit
    /// room. Readiness and the `started` flag are kept.
    pub fn next_round(&mut self)
        requires
            old(self).wf(),
        ensures
            final(self).wf(),
            final(self).gamestate.map.rooms@ == seq![fresh_room((0, 0))],
            final(self).gamestate.keys == 0,
            final(self).gamestate.round == if old(self).gamestate.round < u32::MAX {
                old(self).gamestate.round + 1
            } else {
                old(self).gamestate.round as int
            },
            final(self).gamestate.messages@.len() == 0,
            final(self).curses == no_curses(),
            final(self).gamestate.started == old(self).gamestate.started,
            final(self).gamestate.players@.len() == old(self).gamestate.players@.len(),
            forall|i: int|
                0 <= i < final(self).gamestate.players@.len() ==> (#[trigger] final(self).gamestate.players@[i]).1.position
                    == room_center(final(self).gamestate.map.rooms@[0]),
            forall|i: int|
                0 <= i < old(self).gamestate.players@.len() ==> #[trigger] final(self).gamestate.players@[i]
                    == (
                    old(self).gamestate.players@[i].0,
                    Player { position: Position { x: 128, y: 128 }, ..old(self).gamestate.players@[i].1 },
                ),
    {
        self.gamestate.next_round();
        self.curses = Curses::new();
        let mut i: usize = 0;
        while i < self.gamestate.players.len()
            invariant
                i <= self.gamestate.players@.len(),
                self.gamestate.players@.len() == old(self).gamestate.players@.len(),
                self.gamestate.map.rooms@ == seq![fresh_room((0, 0))],
                self.gamestate.keys == 0,
                self.gamestate.round >= 1,
                self.gamestate.round == if old(self).gamestate.round < u32::MAX {
                    old(self).gamestate.round + 1
                } else {
                    old(self).gamestate.round as int
                },
                self.gamestate.messages@.len() == 0,
                self.curses == no_curses(),
                self.gamestate.started == old(self).gamestate.started,
                forall|j: int|
                    0 <= j < i ==> #[trigger] self.gamestate.players@[j] == (
                        old(self).gamestate.players@[j].0,
                        Player {
                            position: Position { x: 128, y: 128 },
                            ..old(self).gamestate.players@[j].1
                        },
                    ),
                forall|j: int|
                    i <= j < self.gamestate.players@.len() ==> #[trigger] self.gamestate.players@[j]
                        == old(self).gamestate.players@[j],
            decreases self.gamestate.players@.len() - i,
        {
            let spawn = self.gamestate.spawn_point(0);
            self.gamestate.players[i].1.position = spawn;
            i += 1;
        }
        proof {
            let ps = old(self).gamestate.players@;
            let nps = self.gamestate.players@;
            assert forall|a: int, b: int| 0 <= a < b < nps.len() implies nps[a].0@ != nps[b].0@ by {
                assert(nps[a].0 == ps[a].0);
                assert(nps[b].0 == ps[b].0);
            }
        }
    }

    /// Grows the map from `candidates` before play: a candidate with exactly
    /// one revealed neighbour is revealed and dropped from the list, and the
    /// scan starts over from the first candidate, until a whole scan reveals
    /// nothing.
    pub fn pregenerate(&mut self, candidates: Vec<(i32, i32)>)
        requires
            old(self).wf(),
        ensures
            final(self).wf(),
            exists|ps: Seq<(i32, i32)>|
                (forall|i: int| 0 <= i < ps.len() ==> candidates@.contains(#[trigger] ps[i]))
                    && final(self).gamestate.map.rooms@ == reveal_all(old(self).gamestate.map.rooms@, ps),
            forall|k: int|
                0 <= k < candidates@.len() ==> final(self).gamestate.map.has(coord(#[trigger] candidates@[k]))
                    || degree(final(self).gamestate.map.rooms@, coord(candidates@[k])) != 1,
            frontier_safe(old(self).gamestate.map.rooms@) && tree_like(old(self).gamestate.map.rooms@)
                ==> frontier_safe(final(self).gamestate.map.rooms@) && tree_like(
                final(self).gamestate.map.rooms@,
            ),
            forall|q: (int, int)| old(self).gamestate.map.has(q) ==> #[trigger] final(self).gamestate.map.has(q),
            forall|q: (int, int)|
                #[trigger] final(self).gamestate.map.has(q) ==> old(self).gamestate.map.has(q) || exists|k: int|
                    0 <= k < candidates@.len() && coord(candidates@[k]) == q,
            final(self).gamestate.players == old(self).gamestate.players,
            final(self).gamestate.keys == old(self).gamestate.keys,
            final(self).gamestate.messages == old(self).gamestate.messages,
            final(self).gamestate.round == old(self).gamestate.round,
            final(self).gamestate.started == old(self).gamestate.started,
            final(self).curses == old(self).curses,
    {
        let ghost cands = candidates@;
        let ghost start = self.gamestate.map.rooms@;
        let ghost mut ps: Seq<(i32, i32)> = Seq::empty();
        let mut pending = candidates;
        let mut index: usize = 0;
        proof {
            assert forall|k: int| 0 <= k < cands.len() implies pending@.contains(#[trigger] cands[k]) by {
                assert(pending@[k] == cands[k]);
            }
        }
        while index < pending.len()
            invariant
                cands == candidates@,
                start == old(self).gamestate.map.rooms@,
                index <= pending@.len(),
                self.wf(),
                self.gamestate.map.rooms@ == reveal_all(start, ps),
                forall|i: int| 0 <= i < ps.len() ==> cands.contains(#[trigger] ps[i]),
                forall|j: int|
                    #![trigger pending@[j]]
                    0 <= j < pending@.len() ==> cands.contains(pending@[j]),
                forall|k: int|
                    0 <= k < cands.len() ==> self.gamestate.map.has(coord(#[trigger] cands[k]))
                        || pending@.contains(cands[k]),
                forall|j: int|
                    0 <= j < index ==> degree(self.gamestate.map.rooms@, coord(#[trigger] pending@[j])) != 1,
                frontier_safe(start) && tree_like(start) ==> frontier_safe(self.gamestate.map.rooms@)
                    && tree_like(self.gamestate.map.rooms@),
                forall|q: (int, int)| old(self).gamestate.map.has(q) ==> #[trigger] self.gamestate.map.has(q),
                forall|q: (int, int)|
                    #[trigger] self.gamestate.map.has(q) ==> old(self).gamestate.map.has(q) || exists|k: int|
                        0 <= k < cands.len() && coord(cands[k]) == q,
                self.gamestate.players == old(self).gamestate.players,
                self.gamestate.keys == old(self).gamestate.keys,
                self.gamestate.messages == old(self).gamestate.messages,
                self.gamestate.round == old(self).gamestate.round,
                self.gamestate.started == old(self).gamestate.started,
                self.curses == old(self).curses,
            decreases pending@.len(), pending@.len() - index,
        {
            let candidate = pending[index];
            if self.gamestate.map.room_degree(candidate) == 1 {
                let ghost before_map = self.gamestate.map;
                self.add_room(candidate);
                proof {
                    lemma_grown_shape(before_map.rooms@, candidate);
                    lemma_reveal_all_push(start, ps, candidate);
                    if frontier_safe(start) && tree_like(start) {
                        lemma_growth_keeps_tree(before_map.rooms@, candidate);
                    }
                    assert(cands.contains(candidate));
                    let k0 = choose|k: int| 0 <= k < cands.len() && cands[k] == candidate;
                    assert forall|q: (int, int)| #[trigger] self.gamestate.map.has(q) implies old(self).gamestate.map.has(q) || exists|k: int| 0 <= k < cands.len() && coord(cands[k]) == q by {
                        assert(self.gamestate.map.has(q) == (before_map.has(q) || q == coord(candidate)));
                        if q == coord(candidate) {
                            assert(coord(cands[k0]) == q);
                        }
                    }
                    assert forall|q: (int, int)| before_map.has(q) implies #[trigger] self.gamestate.map.has(q) by {
                        assert(self.gamestate.map.has(q) == (before_map.has(q) || q == coord(candidate)));
                    }
                    ps = ps.push(candidate);
                    assert forall|i: int| 0 <= i < ps.len() implies cands.contains(#[trigger] ps[i]) by {
                        if i < ps.len() - 1 {
                            assert(ps[i] == ps.drop_last()[i]);
                        }
                    }
                }
                let ghost pend = pending@;
                pending.remove(index);
                proof {
                    assert forall|j: int|
                        #![trigger pending@[j]]
                        0 <= j < pending@.len() implies cands.contains(pending@[j]) by {
                        if j < index {
                            assert(pending@[j] == pend[j]);
                        } else {
                            assert(pending@[j] == pend[j + 1]);
                        }
                    }
                    assert forall|k: int| 0 <= k < cands.len() implies self.gamestate.map.has(
                        coord(#[trigger] cands[k]),
                    ) || pending@.contains(cands[k]) by {
                        assert(self.gamestate.map.has(coord(cands[k])) == (before_map.has(coord(cands[k]))
                            || coord(cands[k]) == coord(candidate)));
                        if !self.gamestate.map.has(coord(cands[k])) {
                            assert(pend.contains(cands[k]));
                            let j = choose|j: int| 0 <= j < pend.len() && pend[j] == cands[k];
                            if j < index {
                                assert(pending@[j] == cands[k]);
                            } else {
                                assert(j != index);
                                assert(pending@[j - 1] == cands[k]);
                            }
                        }
                    }
                }
                index = 0;
            } else {
                index += 1;
            }
        }
    }

    /// Applies one update of the player registered under `player_id`; `false`,
    /// with nothing changed, where no such player is registered.
    ///
    /// With `end` the next round starts and a message names the player who
    /// found the exit. Otherwise the player is moved and its readiness set,
    /// the game starts once every player is ready, each of `new_rooms` is
    /// revealed (with an item drawn at random), and each of `cleared_rooms`
    /// is emptied of its item.
    pub fn apply_update(
        &mut self,
        player_id: &String,
        position: Position,
        new_rooms: &Vec<(i32, i32)>,
        cleared_rooms: &Vec<(i32, i32)>,
        ready: bool,
        end: bool,
    ) -> (r: bool)
        requires
            old(self).wf(),
        ensures
            final(self).wf(),
            r == has_player(old(self).gamestate.players@, player_id@),
            !r ==> *final(self) == *old(self),
            r ==> updated(
                *old(self),
                *final(self),
                player_id@,
                position,
                new_rooms@,
                cleared_rooms@,
                ready,
                end,
            ),
    {
        let found = find_player(&self.gamestate.players, player_id);
        let i = match found {
            Some(i) => i,
            None => {
                return false;
            },
        };
        let name = self.gamestate.players[i].1.name.clone();
        if end {
            self.next_round();
            self.gamestate.messages.push(
                announce(&name, " has found the exit, a new round is starting!"),
            );
            proof {
                lemma_player_named(old(self).gamestate.players@, player_id@, i as int);
            }
            return true;
        }
        self.update_player(player_id, position, ready);
        if self.all_players_ready() {
            self.gamestate.started = true;
        }
        let ghost players1 = self.gamestate.players;
        let ghost started1 = self.gamestate.started;
        let ghost m0 = old(self).gamestate.messages@;
        let ghost r0 = old(self).gamestate.map.rooms@;
        let ghost c0 = old(self).curses;
        let ghost keys0 = old(self).gamestate.keys;
        proof {
            assert(new_rooms@.take(0) =~= Seq::<(i32, i32)>::empty());
            assert(reveal_all(r0, new_rooms@.take(0)) == r0);
        }
        let mut k: usize = 0;
        while k < new_rooms.len()
            invariant
                k <= new_rooms@.len(),
                r0 == old(self).gamestate.map.rooms@,
                c0 == old(self).curses,
                keys0 == old(self).gamestate.keys,
                grown_with_items(r0, c0, keys0, new_rooms@.take(k as int), self.gamestate.map.rooms@, self.curses),
                self.wf(),
                self.gamestate.players == players1,
                self.gamestate.started == started1,
                self.gamestate.round == old(self).gamestate.round,
                self.gamestate.keys == old(self).gamestate.keys,
                self.gamestate.messages@ == m0,
                forall|q: (int, int)| old(self).gamestate.map.has(q) ==> #[trigger] self.gamestate.map.has(q),
                forall|j: int| 0 <= j < k ==> self.gamestate.map.has(coord(#[trigger] new_rooms@[j])),
            decreases new_rooms@.len() - k,
        {
            let ghost before_map = self.gamestate.map;
            let ghost before_curses = self.curses;
            let draw = ItemDraw::random();
            self.reveal_room(new_rooms[k], draw);
            proof {
                assert forall|q: (int, int)| before_map.has(q) implies #[trigger] self.gamestate.map.has(q) by {}
                let p = new_rooms@[k as int];
                let ps = new_rooms@.take(k as int);
                let m = before_map.rooms@;
                let g = grown(m, p);
                let nr = self.gamestate.map.rooms@;
                let n = m.len() as int;
                assert(new_rooms@.take(k + 1) =~= ps.push(p));
                lemma_reveal_all_push(r0, ps, p);
                lemma_same_layout_grown(m, reveal_all(r0, ps), p);
                lemma_grown_items(m, p);
                lemma_grown_shape(m, p);
                let placed = !has_room(m, coord(p)) && keys0 < KEYS_TO_EXIT && draw_places(draw);
                let res = curse_result(before_curses, drawn_kind(draw));
                assert(same_layout(nr, g)) by {
                    assert forall|i: int| 0 <= i < nr.len() implies (#[trigger] nr[i]).position
                        == g[i].position && nr[i].doors == g[i].doors && nr[i].room_type
                        == g[i].room_type by {}
                }
                assert(same_layout(nr, reveal_all(r0, ps.push(p)))) by {
                    assert forall|i: int| 0 <= i < nr.len() implies (#[trigger] nr[i]).position
                        == reveal_all(r0, ps.push(p))[i].position && nr[i].doors == reveal_all(
                        r0,
                        ps.push(p),
                    )[i].doors && nr[i].room_type == reveal_all(r0, ps.push(p))[i].room_type by {
                        assert(nr[i].position == g[i].position);
                    }
                }
                assert forall|i: int| 0 <= i < nr.len() && i != n implies (#[trigger] nr[i]).item
                    == g[i].item by {}
                assert forall|kk: Item| #[trigger] curse_used(c0, kk) implies curse_used(self.curses, kk) by {
                    assert(curse_used(before_curses, kk));
                }
                assert forall|i: int| 0 <= i < r0.len() implies (#[trigger] nr[i]).item == r0[i].item by {
                    assert(nr[i].item == g[i].item);
                    assert(g[i].item == m[i].item);
                }
                assert forall|i: int|
                    r0.len() <= i < nr.len() && (#[trigger] nr[i]).item is Some implies ({
                        let (kd, t) = nr[i].item.unwrap();
                        &&& keys0 < KEYS_TO_EXIT
                        &&& 4 <= t.0 <= 11 && 4 <= t.1 <= 11
                        &&& kd != Item::Key ==> !curse_used(c0, kd) && curse_used(self.curses, kd)
                    }) by {
                    if i < n {
                        assert(nr[i].item == m[i].item);
                        let kd = nr[i].item.unwrap().0;
                        assert(curse_used(before_curses, kd) ==> curse_used(self.curses, kd));
                    } else {
                        assert(i == n);
                        assert(placed);
                    }
                }
                assert forall|a: int, b: int|
                    r0.len() <= a < b < nr.len() && (#[trigger] nr[a]).item is Some && (#[trigger] nr[b]).item is Some
                        && nr[a].item.unwrap().0 == nr[b].item.unwrap().0 implies nr[a].item.unwrap().0
                    == Item::Key by {
                    if b < n {
                        assert(nr[a].item == m[a].item && nr[b].item == m[b].item);
                    } else {
                        assert(b == n && placed);
                        assert(nr[a].item == m[a].item);
                    }
                }
            }
            k += 1;
        }
        let ghost mid = self.gamestate.map.rooms@;
        let ghost mc = self.curses;
        proof {
            assert(new_rooms@.take(new_rooms@.len() as int) =~= new_rooms@);
            assert(cleared_rooms@.take(0) =~= Seq::<(i32, i32)>::empty());
        }
        let mut c: usize = 0;
        while c < cleared_rooms.len()
            invariant
                c <= cleared_rooms@.len(),
                m0 == old(self).gamestate.messages@,
                keys0 == old(self).gamestate.keys,
                self.curses == mc,
                (self.gamestate.map.rooms@, self.gamestate.keys as int, texts(self.gamestate.messages@))
                    == clear_all((mid, keys0 as int, texts(m0)), cleared_rooms@.take(c as int), name@),
                self.wf(),
                self.gamestate.players == players1,
                self.gamestate.started == started1,
                self.gamestate.round == old(self).gamestate.round,
                self.gamestate.keys >= old(self).gamestate.keys,
                self.gamestate.messages@.len() >= m0.len(),
                forall|j: int| 0 <= j < m0.len() ==> #[trigger] self.gamestate.messages@[j] == m0[j],
                forall|q: (int, int)| old(self).gamestate.map.has(q) ==> #[trigger] self.gamestate.map.has(q),
                forall|j: int| 0 <= j < new_rooms@.len() ==> self.gamestate.map.has(coord(#[trigger] new_rooms@[j])),
                forall|j: int, i: int|
                    0 <= j < c && 0 <= i < self.gamestate.map.rooms@.len() && pos(
                        #[trigger] self.gamestate.map.rooms@[i],
                    ) == coord(#[trigger] cleared_rooms@[j]) ==> self.gamestate.map.rooms@[i].item.is_none(),
            decreases cleared_rooms@.len() - c,
        {
            let ghost before_map = self.gamestate.map;
            let ghost before_msgs = self.gamestate.messages@;
            self.clear_room(cleared_rooms[c], &name);
            proof {
                let cs = cleared_rooms@.take(c + 1);
                assert(cs.drop_last() =~= cleared_rooms@.take(c as int));
                assert(cs.last() == cleared_rooms@[c as int]);
                lemma_same_positions(before_map.rooms@, self.gamestate.map.rooms@);
                assert forall|q: (int, int)| before_map.has(q) implies #[trigger] self.gamestate.map.has(q) by {}
                assert forall|j: int| 0 <= j < m0.len() implies #[trigger] self.gamestate.messages@[j] == m0[j] by {
                    assert(self.gamestate.messages@[j] == before_msgs[j]);
                }
                assert forall|j: int, i: int|
                    0 <= j < c + 1 && 0 <= i < self.gamestate.map.rooms@.len() && pos(
                        #[trigger] self.gamestate.map.rooms@[i],
                    ) == coord(#[trigger] cleared_rooms@[j]) implies self.gamestate.map.rooms@[i].item.is_none() by {
                    assert(pos(self.gamestate.map.rooms@[i]) == pos(before_map.rooms@[i]));
                }
            }
            c += 1;
        }
        proof {
            assert(cleared_rooms@.take(cleared_rooms@.len() as int) =~= cleared_rooms@);
            lemma_player_named(old(self).gamestate.players@, player_id@, i as int);
        }
        true
    }

    /// A new game in its first round: the map grown from the seed layout,
    /// then three curses and eight keys scattered over rooms other than the
    /// exit room, through the curse tracker.
    pub fn new() -> (r: ServerGamestate)
        ensures
            r.wf(),
            r.gamestate.players@.len() == 0,
            !r.gamestate.started,
            r.gamestate.keys == 0,
            r.gamestate.messages@.len() == 0,
            r.gamestate.round == 1,
            forall|i: int|
                1 <= i < r.gamestate.map.rooms@.len() ==> seed_candidates().contains(
                    pos(#[trigger] r.gamestate.map.rooms@[i]),
                ),
            forall|k: int|
                0 <= k < seed_candidates().len() ==> r.gamestate.map.has(#[trigger] seed_candidates()[k])
                    || degree(r.gamestate.map.rooms@, seed_candidates()[k]) != 1,
            exists|ps: Seq<(i32, i32)>|
                (forall|i: int| 0 <= i < ps.len() ==> seed_candidates().contains(coord(#[trigger] ps[i])))
                    && same_layout(
                    r.gamestate.map.rooms@,
                    reveal_all(seq![fresh_room((0, 0))], ps),
                ),
            frontier_safe(r.gamestate.map.rooms@),
            tree_like(r.gamestate.map.rooms@),
            items_fair(r.gamestate.map.rooms@, r.curses),
    {
        let mut game = ServerGamestate { gamestate: Gamestate::default(), curses: Curses::new() };
        let candidates = seed_layout();
        let ghost cands = candidates@;
        let ghost g0 = game.gamestate.map;
        game.pregenerate(candidates);
        let ghost base = game.gamestate.map.rooms@;
        proof {
            lemma_exit_room_alone_is_tree();
            assert forall|i: int| 1 <= i < base.len() implies seed_candidates().contains(
                pos(#[trigger] base[i]),
            ) by {
                let q = pos(base[i]);
                assert(game.gamestate.map.has(q));
                assert(q != pos(base[0]));
                assert(!g0.has(q)) by {
                    if g0.has(q) {
                        let j = choose|j: int| 0 <= j < g0.rooms@.len() && pos(g0.rooms@[j]) == q;
                        assert(j == 0);
                    }
                }
                let k = choose|k: int| 0 <= k < cands.len() && coord(cands[k]) == q;
                assert(seed_candidates()[k] == q);
            }
            assert forall|k: int| 0 <= k < seed_candidates().len() implies game.gamestate.map.has(
                #[trigger] seed_candidates()[k],
            ) || degree(base, seed_candidates()[k]) != 1 by {
                assert(coord(cands[k]) == seed_candidates()[k]);
            }
            let ps = choose|ps: Seq<(i32, i32)>|
                (forall|i: int| 0 <= i < ps.len() ==> cands.contains(#[trigger] ps[i])) && base
                    == reveal_all(seq![fresh_room((0, 0))], ps);
            assert forall|i: int| 0 <= i < ps.len() implies seed_candidates().contains(
                coord(#[trigger] ps[i]),
            ) by {
                assert(cands.contains(ps[i]));
                let k = choose|k: int| 0 <= k < cands.len() && cands[k] == ps[i];
                assert(seed_candidates()[k] == coord(ps[i]));
            }
            lemma_items_none_after_reveals(seq![fresh_room((0, 0))], ps);
            assert(same_layout(base, reveal_all(seq![fresh_room((0, 0))], ps)));
        }
        let mut placed: u32 = 0;
        while placed < 11
            invariant
                game.wf(),
                game.gamestate.players@.len() == 0,
                !game.gamestate.started,
                game.gamestate.keys == 0,
                game.gamestate.messages@.len() == 0,
                game.gamestate.round == 1,
                same_layout(game.gamestate.map.rooms@, base),
                items_fair(game.gamestate.map.rooms@, game.curses),
            decreases 11 - placed,
        {
            let len = game.gamestate.map.rooms.len();
            if len > 1 {
                let k = 1 + (random_u32() as usize) % (len - 1);
                let target = game.gamestate.map.rooms[k].position;
                let kind: u32 = if placed < 3 {
                    placed
                } else {
                    3
                };
                let draw = ItemDraw { chance: 0, kind, x: random_u32(), y: random_u32() };
                let ghost before = game;
                proof {
                    lemma_room_at(before.gamestate.map.rooms@, coord(target), k as int);
                }
                game.assign_item(target, draw);
                proof {
                    let rs = before.gamestate.map.rooms@;
                    let c = before.curses;
                    let res = curse_result(c, drawn_kind(draw));
                    let i = choose|i: int|
                        0 <= i < rs.len() && pos(rs[i]) == coord(target) && game.gamestate.map.rooms@
                            == rs.update(i, with_item(rs[i], Some((res, drawn_tile(draw)))));
                    assert(i == k) by {
                        if i < k {
                            assert(pos(rs[i]) != pos(rs[k as int]));
                        } else if k < i {
                            assert(pos(rs[k as int]) != pos(rs[i]));
                        }
                    }
                    assert(pos(rs[i]) != pos(rs[0]));
                    let nr = game.gamestate.map.rooms@;
                    assert(same_layout(nr, base)) by {
                        assert forall|j: int| 0 <= j < nr.len() implies (#[trigger] nr[j]).position
                            == base[j].position && nr[j].doors == base[j].doors && nr[j].room_type
                            == base[j].room_type by {
                            assert(rs[j].position == base[j].position);
                        }
                    }
                    assert forall|kk: Item| #[trigger] curse_used(c, kk) implies curse_used(game.curses, kk) by {}
                    assert(items_fair(nr, game.curses)) by {
                        assert forall|j: int| 0 <= j < nr.len() && (#[trigger] nr[j]).item is Some implies ({
                            let (kd, t) = nr[j].item.unwrap();
                            &&& pos(nr[j]) != (0int, 0int)
                            &&& 4 <= t.0 <= 11 && 4 <= t.1 <= 11
                            &&& kd != Item::Key ==> curse_used(game.curses, kd)
                        }) by {
                            if j != i {
                                assert(nr[j] == rs[j]);
                            } else {
                                assert(pos(nr[j]) == pos(rs[i]));
                            }
                        }
                        assert forall|a: int, b: int|
                            0 <= a < b < nr.len() && (#[trigger] nr[a]).item is Some && (#[trigger] nr[b]).item is Some
                                && nr[a].item.unwrap().0 == nr[b].item.unwrap().0 implies nr[a].item.unwrap().0
                            == Item::Key by {
                            if a != i && b != i {
                                assert(nr[a] == rs[a] && nr[b] == rs[b]);
                            } else if a == i {
                                assert(nr[b] == rs[b]);
                                assert(rs[b].item is Some);
                            } else {
                                assert(nr[a] == rs[a]);
                                assert(rs[a].item is Some);
                            }
                        }
                    }
                }
            }
            placed += 1;
        }
        proof {
            let nr = game.gamestate.map.rooms@;
            lemma_same_layout(nr, base);
            let ps = choose|ps: Seq<(i32, i32)>|
                (forall|i: int| 0 <= i < ps.len() ==> seed_candidates().contains(coord(#[trigger] ps[i])))
                    && same_layout(base, reveal_all(seq![fresh_room((0, 0))], ps));
            assert(same_layout(nr, reveal_all(seq![fresh_room((0, 0))], ps)));
            assert forall|i: int| 1 <= i < nr.len() implies seed_candidates().contains(pos(#[trigger] nr[i])) by {
                assert(pos(nr[i]) == pos(base[i]));
            }
        }
        game
    }
}

/// The candidate coordinates of the map that a game starts with: a diamond
/// around the exit room, with gaps, and four outposts beyond its tips.
pub open spec fn seed_candidates() -> Seq<(int, int)> {
    seq![
        (-15, 0), (-14, -1), (-14, 0), (-14, 1), (-13, -2), (-13, 0), (-13, 2), (-12, -3),
        (-12, -2), (-12, -1), (-12, 0), (-12, 1), (-12, 2), (-12, 3), (-11, -4), (-11, -2),
        (-11, 0), (-11, 2), (-11, 4), (-10, -5), (-10, -4), (-10, -3), (-10, -1), (-10, 0),
        (-10, 1), (-10, 3), (-10, 4), (-10, 5), (-9, -6), (-9, -4), (-9, -2), (-9, 0), (-9, 2),
        (-9, 4), (-9, 6), (-8, -7), (-8, -6), (-8, -5), (-8, -4), (-8, -3), (-8, -2), (-8, -1),
        (-8, 0), (-8, 1), (-8, 2), (-8, 3), (-8, 4), (-8, 5), (-8, 6), (-8, 7), (-7, -8),
        (-7, -6), (-7, -4), (-7, -2), (-7, 0), (-7, 2), (-7, 4), (-7, 6), (-7, 8), (-6, -9),
        (-6, -8), (-6, -7), (-6, -5), (-6, -4), (-6, -3), (-6, -1), (-6, 0), (-6, 1), (-6, 3),
        (-6, 4), (-6, 5), (-6, 7), (-6, 8), (-6, 9), (-5, -10), (-5, -8), (-5, -6), (-5, -4),
        (-5, -2), (-5, 0), (-5, 2), (-5, 4), (-5, 6), (-5, 8), (-5, 10), (-4, -11), (-4, -10),
        (-4, -9), (-4, -8), (-4, -7), (-4, -6), (-4, -5), (-4, -3), (-4, -2), (-4, -1), (-4, 0),
        (-4, 1), (-4, 2), (-4, 3), (-4, 5), (-4, 6), (-4, 7), (-4, 8), (-4, 9), (-4, 10),
        (-4, 11), (-3, -12), (-3, -10), (-3, -8), (-3, -6), (-3, -4), (-3, -2), (-3, 0), (-3, 2),
        (-3, 4), (-3, 6), (-3, 8), (-3, 10), (-3, 12), (-2, -13), (-2, -12), (-2, -11), (-2, -9),
        (-2, -8), (-2, -7), (-2, -5), (-2, -4), (-2, -3), (-2, -1), (-2, 0), (-2, 1), (-2, 3),
        (-2, 4), (-2, 5), (-2, 7), (-2, 8), (-2, 9), (-2, 11), (-2, 12), (-2, 13), (-1, -14),
        (-1, -12), (-1, -10), (-1, -8), (-1, -6), (-1, -4), (-1, -2), (-1, 0), (-1, 2), (-1, 4),
        (-1, 6), (-1, 8), (-1, 10), (-1, 12), (-1, 14), (0, -15), (0, -14), (0, -13), (0, -12),
        (0, -11), (0, -10), (0, -9), (0, -8), (0, -7), (0, -6), (0, -5), (0, -4), (0, -3),
        (0, -2), (0, -1), (0, 1), (0, 2), (0, 3), (0, 4), (0, 5), (0, 6), (0, 7), (0, 8), (0, 9),
        (0, 10), (0, 11), (0, 12), (0, 13), (0, 14), (0, 15), (1, -14), (1, -12), (1, -10),
        (1, -8), (1, -6), (1, -4), (1, -2), (1, 0), (1, 2), (1, 4), (1, 6), (1, 8), (1, 10),
        (1, 12), (1, 14), (2, -13), (2, -12), (2, -11), (2, -9), (2, -8), (2, -7), (2, -5),
        (2, -4), (2, -3), (2, -1), (2, 0), (2, 1), (2, 3), (2, 4), (2, 5), (2, 7), (2, 8), (2, 9),
        (2, 11), (2, 12), (2, 13), (3, -12), (3, -10), (3, -8), (3, -6), (3, -4), (3, -2), (3, 0),
        (3, 2), (3, 4), (3, 6), (3, 8), (3, 10), (3, 12), (4, -11), (4, -10), (4, -9), (4, -8),
        (4, -7), (4, -6), (4, -5), (4, -3), (4, -2), (4, -1), (4, 0), (4, 1), (4, 2), (4, 3),
        (4, 5), (4, 6), (4, 7), (4, 8), (4, 9), (4, 10), (4, 11), (5, -10), (5, -8), (5, -6),
        (5, -4), (5, -2), (5, 0), (5, 2), (5, 4), (5, 6), (5, 8), (5, 10), (6, -9), (6, -8),
        (6, -7), (6, -5), (6, -4), (6, -3), (6, -1), (6, 0), (6, 1), (6, 3), (6, 4), (6, 5),
        (6, 7), (6, 8), (6, 9), (7, -8), (7, -6), (7, -4), (7, -2), (7, 0), (7, 2), (7, 4),
        (7, 6), (7, 8), (8, -7), (8, -6), (8, -5), (8, -4), (8, -3), (8, -2), (8, -1), (8, 0),
        (8, 1), (8, 2), (8, 3), (8, 4), (8, 5), (8, 6), (8, 7), (9, -6), (9, -4), (9, -2), (9, 0),
        (9, 2), (9, 4), (9, 6), (10, -5), (10, -4), (10, -3), (10, -1), (10, 0), (10, 1), (10, 3),
        (10, 4), (10, 5), (11, -4), (11, -2), (11, 0), (11, 2), (11, 4), (12, -3), (12, -2),
        (12, -1), (12, 0), (12, 1), (12, 2), (12, 3), (13, -2), (13, 0), (13, 2), (14, -1),
        (14, 0), (14, 1), (15, 0), (0, 0), (-17, 0), (17, 0), (0, 17), (0, -17),
    ]
}

fn seed_layout() -> (r: Vec<(i32, i32)>)
    ensures
        r@.len() == seed_candidates().len(),
        forall|i: int| 0 <= i < r@.len() ==> coord(#[trigger] r@[i]) == seed_candidates()[i],
{
    let r = vec![
        (-15, 0), (-14, -1), (-14, 0), (-14, 1), (-13, -2), (-13, 0), (-13, 2), (-12, -3),
        (-12, -2), (-12, -1), (-12, 0), (-12, 1), (-12, 2), (-12, 3), (-11, -4), (-11, -2),
        (-11, 0), (-11, 2), (-11, 4), (-10, -5), (-10, -4), (-10, -3), (-10, -1), (-10, 0),
        (-10, 1), (-10, 3), (-10, 4), (-10, 5), (-9, -6), (-9, -4), (-9, -2), (-9, 0), (-9, 2),
        (-9, 4), (-9, 6), (-8, -7), (-8, -6), (-8, -5), (-8, -4), (-8, -3), (-8, -2), (-8, -1),
        (-8, 0), (-8, 1), (-8, 2), (-8, 3), (-8, 4), (-8, 5), (-8, 6), (-8, 7), (-7, -8),
        (-7, -6), (-7, -4), (-7, -2), (-7, 0), (-7, 2), (-7, 4), (-7, 6), (-7, 8), (-6, -9),
        (-6, -8), (-6, -7), (-6, -5), (-6, -4), (-6, -3), (-6, -1), (-6, 0), (-6, 1), (-6, 3),
        (-6, 4), (-6, 5), (-6, 7), (-6, 8), (-6, 9), (-5, -10), (-5, -8), (-5, -6), (-5, -4),
        (-5, -2), (-5, 0), (-5, 2), (-5, 4), (-5, 6), (-5, 8), (-5, 10), (-4, -11), (-4, -10),
        (-4, -9), (-4, -8), (-4, -7), (-4, -6), (-4, -5), (-4, -3), (-4, -2), (-4, -1), (-4, 0),
        (-4, 1), (-4, 2), (-4, 3), (-4, 5), (-4, 6), (-4, 7), (-4, 8), (-4, 9), (-4, 10),
        (-4, 11), (-3, -12), (-3, -10), (-3, -8), (-3, -6), (-3, -4), (-3, -2), (-3, 0), (-3, 2),
        (-3, 4), (-3, 6), (-3, 8), (-3, 10), (-3, 12), (-2, -13), (-2, -12), (-2, -11), (-2, -9),
        (-2, -8), (-2, -7), (-2, -5), (-2, -4), (-2, -3), (-2, -1), (-2, 0), (-2, 1), (-2, 3),
        (-2, 4), (-2, 5), (-2, 7), (-2, 8), (-2, 9), (-2, 11), (-2, 12), (-2, 13), (-1, -14),
        (-1, -12), (-1, -10), (-1, -8), (-1, -6), (-1, -4), (-1, -2), (-1, 0), (-1, 2), (-1, 4),
        (-1, 6), (-1, 8), (-1, 10), (-1, 12), (-1, 14), (0, -15), (0, -14), (0, -13), (0, -12),
        (0, -11), (0, -10), (0, -9), (0, -8), (0, -7), (0, -6), (0, -5), (0, -4), (0, -3),
        (0, -2), (0, -1), (0, 1), (0, 2), (0, 3), (0, 4), (0, 5), (0, 6), (0, 7), (0, 8), (0, 9),
        (0, 10), (0, 11), (0, 12), (0, 13), (0, 14), (0, 15), (1, -14), (1, -12), (1, -10),
        (1, -8), (1, -6), (1, -4), (1, -2), (1, 0), (1, 2), (1, 4), (1, 6), (1, 8), (1, 10),
        (1, 12), (1, 14), (2, -13), (2, -12), (2, -11), (2, -9), (2, -8), (2, -7), (2, -5),
        (2, -4), (2, -3), (2, -1), (2, 0), (2, 1), (2, 3), (2, 4), (2, 5), (2, 7), (2, 8), (2, 9),
        (2, 11), (2, 12), (2, 13), (3, -12), (3, -10), (3, -8), (3, -6), (3, -4), (3, -2), (3, 0),
        (3, 2), (3, 4), (3, 6), (3, 8), (3, 10), (3, 12), (4, -11), (4, -10), (4, -9), (4, -8),
        (4, -7), (4, -6), (4, -5), (4, -3), (4, -2), (4, -1), (4, 0), (4, 1), (4, 2), (4, 3),
        (4, 5), (4, 6), (4, 7), (4, 8), (4, 9), (4, 10), (4, 11), (5, -10), (5, -8), (5, -6),
        (5, -4), (5, -2), (5, 0), (5, 2), (5, 4), (5, 6), (5, 8), (5, 10), (6, -9), (6, -8),
        (6, -7), (6, -5), (6, -4), (6, -3), (6, -1), (6, 0), (6, 1), (6, 3), (6, 4), (6, 5),
        (6, 7), (6, 8), (6, 9), (7, -8), (7, -6), (7, -4), (7, -2), (7, 0), (7, 2), (7, 4),
        (7, 6), (7, 8), (8, -7), (8, -6), (8, -5), (8, -4), (8, -3), (8, -2), (8, -1), (8, 0),
        (8, 1), (8, 2), (8, 3), (8, 4), (8, 5), (8, 6), (8, 7), (9, -6), (9, -4), (9, -2), (9, 0),
        (9, 2), (9, 4), (9, 6), (10, -5), (10, -4), (10, -3), (10, -1), (10, 0), (10, 1), (10, 3),
        (10, 4), (10, 5), (11, -4), (11, -2), (11, 0), (11, 2), (11, 4), (12, -3), (12, -2),
        (12, -1), (12, 0), (12, 1), (12, 2), (12, 3), (13, -2), (13, 0), (13, 2), (14, -1),
        (14, 0), (14, 1), (15, 0), (0, 0), (-17, 0), (17, 0), (0, 17), (0, -17),
    ];
    assert(r@.map_values(|c: (i32, i32)| coord(c)) =~= seed_candidates());
    assert forall|i: int| 0 <= i < r@.len() implies coord(#[trigger] r@[i]) == seed_candidates()[i] by {
        assert(r@.map_values(|c: (i32, i32)| coord(c))[i] == coord(r@[i]));
    }
    r
}

// ---------------------------------------------------------------------------
// The registry of games
// ---------------------------------------------------------------------------

/// Some game is registered under `id`.
pub open spec fn has_game(games: Seq<(String, ServerGamestate)>, id: Seq<char>) -> bool {
    exists|i: int| 0 <= i < games.len() && #[trigger] games[i].0@ == id
}

/// A player identifier that `players` does not hold yet: `base`, lengthened
/// with dashes where it is taken.
fn unused_player_id(players: &Vec<(String, Player)>, base: String) -> (r: String)
    ensures
        !has_player(players@, r@),
{
    let mut longest: usize = 0;
    let mut i: usize = 0;
    while i < players.len()
        invariant
            i <= players@.len(),
            forall|j: int| 0 <= j < i ==> (#[trigger] players@[j]).0@.len() <= longest,
        decreases players@.len() - i,
    {
        let l = players[i].0.as_str().unicode_len();
        if l > longest {
            longest = l;
        }
        i += 1;
    }
    let mut id = base;
    let mut taken = match find_player(players, &id) {
        Some(i) => {
            proof {
                assert(players@[i as int].0@ == id@);
            }
            true
        },
        None => false,
    };
    while taken
        invariant
            taken == has_player(players@, id@),
            forall|j: int| 0 <= j < players@.len() ==> (#[trigger] players@[j]).0@.len() <= longest,
        decreases if id@.len() <= longest {
            longest + 1 - id@.len()
        } else {
            0
        },
    {
        proof {
            reveal_strlit("-");
        }
        id.append("-");
        taken = match find_player(players, &id) {
            Some(i) => {
                proof {
                    assert(players@[i as int].0@ == id@);
                }
                true
            },
            None => false,
        };
    }
    id
}

/// All running games, each under its identifier.
#[derive(Debug)]
pub struct ServerState {
    pub games: Vec<(String, ServerGamestate)>,
}

impl ServerState {
    /// Identifiers are unique and every game is well formed.
    pub open spec fn wf(&self) -> bool {
        &&& forall|i: int, j: int|
            0 <= i < j < self.games@.len() ==> self.games@[i].0@ != self.games@[j].0@
        &&& forall|i: int| 0 <= i < self.games@.len() ==> (#[trigger] self.games@[i]).1.wf()
    }

    pub fn new() -> (r: ServerState)
        ensures
            r.wf(),
            r.games@.len() == 0,
    {
        ServerState { games: Vec::new() }
    }

    /// How many games are registered.
    pub fn game_count(&self) -> (r: usize)
        ensures
            r == self.games@.len(),
    {
        self.games.len()
    }

    /// The index of the game registered under `id`, if any.
    pub fn find_game(&self, id: &String) -> (r: Option<usize>)
        ensures
            match r {
                Some(i) => i < self.games@.len() && self.games@[i as int].0@ == id@,
                None => !has_game(self.games@, id@),
            },
    {
        let mut i: usize = 0;
        while i < self.games.len()
            invariant
                i <= self.games@.len(),
                forall|j: int| 0 <= j < i ==> (#[trigger] self.games@[j]).0@ != id@,
            decreases self.games@.len() - i,
        {
            if self.games[i].0 == *id {
                return Some(i);
            }
            i += 1;
        }
        None
    }

    /// A game identifier that is not in use: `base`, lengthened with dashes
    /// where it is taken.
    fn unused_id(&self, base: String) -> (r: String)
        ensures
            !has_game(self.games@, r@),
    {
        let mut longest: usize = 0;
        let mut i: usize = 0;
        while i < self.games.len()
            invariant
                i <= self.games@.len(),
                forall|j: int| 0 <= j < i ==> (#[trigger] self.games@[j]).0@.len() <= longest,
            decreases self.games@.len() - i,
        {
            let l = self.games[i].0.as_str().unicode_len();
            if l > longest {
                longest = l;
            }
            i += 1;
        }
        let mut id = base;
        while self.find_game(&id).is_some()
            invariant
                forall|j: int| 0 <= j < self.games@.len() ==> (#[trigger] self.games@[j]).0@.len() <= longest,
            decreases if id@.len() <= longest {
                longest + 1 - id@.len()
            } else {
                0
            },
        {
            proof {
                reveal_strlit("-");
            }
            id.append("-");
        }
        id
    }

    /// Creates a game and returns its identifier, six characters of a random
    /// UUID where they are not in use yet.
    pub fn new_game(&mut self, _public: bool) -> (r: String)
        requires
            old(self).wf(),
        ensures
            final(self).wf(),
            !has_game(old(self).games@, r@),
            final(self).games@.len() == old(self).games@.len() + 1,
            forall|i: int| 0 <= i < old(self).games@.len() ==> #[trigger] final(self).games@[i] == old(self).games@[i],
            ({
                let g = final(self).games@[old(self).games@.len() as int];
                &&& g.0@ == r@
                &&& g.1.gamestate.players@.len() == 0
                &&& !g.1.gamestate.started
                &&& g.1.gamestate.keys == 0
                &&& g.1.gamestate.messages@.len() == 0
                &&& g.1.gamestate.round == 1
            }),
    {
        let full = new_uuid();
        let short = String::from_str(full.as_str().substring_ascii(0, 6));
        let id = self.unused_id(short);
        let game = ServerGamestate::new();
        self.games.push((id.clone(), game));
        proof {
            let gs = self.games@;
            let n = old(self).games@.len() as int;
            assert forall|a: int, b: int| 0 <= a < b < gs.len() implies gs[a].0@ != gs[b].0@ by {
                if b == n {
                    assert(gs[a] == old(self).games@[a]);
                }
            }
        }
        id
    }

    /// Registers a player named `player_name` in the game `game_id` and
    /// returns its new identifier and spawn point; `None`, with nothing
    /// changed, where no such game is registered.
    pub fn join_game(&mut self, game_id: String, player_name: String) -> (r: Option<(String, Position)>)
        requires
            old(self).wf(),
        ensures
            final(self).wf(),
            r.is_some() == has_game(old(self).games@, game_id@),
            r.is_none() ==> *final(self) == *old(self),
            r.is_some() ==> exists|i: int|
                0 <= i < old(self).games@.len() && old(self).games@[i].0@ == game_id@ && {
                    let o = old(self).games@[i].1.gamestate;
                    let n = final(self).games@[i].1.gamestate;
                    let id = r.unwrap().0;
                    let spawn = r.unwrap().1;
                    &&& final(self).games@.len() == old(self).games@.len()
                    &&& forall|j: int|
                        0 <= j < old(self).games@.len() && j != i ==> #[trigger] final(self).games@[j]
                            == old(self).games@[j]
                    &&& final(self).games@[i].0 == old(self).games@[i].0
                    &&& final(self).games@[i].1.curses == old(self).games@[i].1.curses
                    &&& !has_player(o.players@, id@)
                    &&& n.players@ == o.players@.push(
                        (id, Player { name: player_name, position: spawn, ready: false }),
                    )
                    &&& exists|k: int|
                        0 <= k < o.map.rooms@.len() && (o.map.rooms@.len() > 1 ==> k >= 1) && spawn
                            == room_center(#[trigger] o.map.rooms@[k])
                    &&& n.map == o.map
                    &&& n.keys == o.keys
                    &&& n.messages == o.messages
                    &&& n.round == o.round
                    &&& n.started == o.started
                },
    {
        let i = match self.find_game(&game_id) {
            Some(i) => i,
            None => {
                return None;
            },
        };
        let id = unused_player_id(&self.games[i].1.gamestate.players, new_uuid());
        let roll = random_u32();
        let spawn = self.games[i].1.gamestate.spawn_point(roll);
        self.games[i].1.add_player(id.clone(), player_name, roll);
        proof {
            let gs = self.games@;
            assert forall|a: int, b: int| 0 <= a < b < gs.len() implies gs[a].0@ != gs[b].0@ by {
                assert(gs[a].0 == old(self).games@[a].0);
                assert(gs[b].0 == old(self).games@[b].0);
            }
            assert forall|a: int| 0 <= a < gs.len() implies (#[trigger] gs[a]).1.wf() by {
                if a != i {
                    assert(gs[a] == old(self).games@[a]);
                }
            }
            let o = old(self).games@[i as int].1.gamestate;
            let k = spawn_index(o.map.rooms@.len() as int, roll);
            assert(spawn == room_center(o.map.rooms@[k]));
        }
        Some((id, spawn))
    }

    /// Applies an update of player `player_id` to game `game_id` (see
    /// `ServerGamestate::apply_update`) and returns the game's state; `None`,
    /// with nothing changed, where the game or the player is unknown.
    pub fn update(
        &mut self,
        game_id: String,
        player_id: String,
        position: Position,
        new_rooms: Vec<(i32, i32)>,
        cleared_rooms: Vec<(i32, i32)>,
        ready: bool,
        end: bool,
    ) -> (r: Option<&Gamestate>)
        requires
            old(self).wf(),
        ensures
            final(self).wf(),
            r.is_some() == exists|i: int|
                0 <= i < old(self).games@.len() && old(self).games@[i].0@ == game_id@ && has_player(
                    old(self).games@[i].1.gamestate.players@,
                    player_id@,
                ),
            r.is_none() ==> final(self).games@ == old(self).games@,
            r.is_some() ==> exists|i: int|
                0 <= i < old(self).games@.len() && old(self).games@[i].0@ == game_id@
                    && final(self).games@.len() == old(self).games@.len() && (forall|j: int|
                    0 <= j < old(self).games@.len() && j != i ==> #[trigger] final(self).games@[j]
                        == old(self).games@[j]) && final(self).games@[i].0 == old(self).games@[i].0
                    && updated(
                    old(self).games@[i].1,
                    final(self).games@[i].1,
                    player_id@,
                    position,
                    new_rooms@,
                    cleared_rooms@,
                    ready,
                    end,
                ) && *r.unwrap() == final(self).games@[i].1.gamestate,
    {
        let i = match self.find_game(&game_id) {
            Some(i) => i,
            None => {
                return None;
            },
        };
        proof {
            assert forall|j: int|
                0 <= j < old(self).games@.len() && old(self).games@[j].0@ == game_id@ implies j == i by {
                if j != i {
                    assert(old(self).games@[j].0@ != old(self).games@[i as int].0@);
                }
            }
        }
        let accepted = self.games[i].1.apply_update(
            &player_id,
            position,
            &new_rooms,
            &cleared_rooms,
            ready,
            end,
        );
        if !accepted {
            proof {
                assert(self.games@ =~= old(self).games@);
            }
            return None;
        }
        proof {
            let gs = self.games@;
            assert forall|a: int, b: int| 0 <= a < b < gs.len() implies gs[a].0@ != gs[b].0@ by {
                assert(gs[a].0 == old(self).games@[a].0);
                assert(gs[b].0 == old(self).games@[b].0);
            }
            assert forall|a: int| 0 <= a < gs.len() implies (#[trigger] gs[a]).1.wf() by {
                if a != i {
                    assert(gs[a] == old(self).games@[a]);
                }
            }
        }
        Some(&self.games[i].1.gamestate)
    }
}

} // verus!
