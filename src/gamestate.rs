use vstd::prelude::*;

use crate::room::{all_open, Doors, Room, RoomType};
use crate::utils::Direction;

verus! {

// ---------------------------------------------------------------------------
// Grid model
// ---------------------------------------------------------------------------

/// The grid coordinate of a room, as a pair of mathematical integers.
pub open spec fn pos(r: Room) -> (int, int) {
    (r.position.0 as int, r.position.1 as int)
}

pub open spec fn coord(p: (i32, i32)) -> (int, int) {
    (p.0 as int, p.1 as int)
}

/// The neighbouring coordinate in direction `d`.
pub open spec fn step(p: (int, int), d: Direction) -> (int, int) {
    match d {
        Direction::Up => (p.0, p.1 + 1),
        Direction::Down => (p.0, p.1 - 1),
        Direction::Left => (p.0 - 1, p.1),
        Direction::Right => (p.0 + 1, p.1),
    }
}

pub open spec fn adjacent(a: (int, int), b: (int, int)) -> bool {
    b == step(a, Direction::Up) || b == step(a, Direction::Down) || b == step(a, Direction::Left)
        || b == step(a, Direction::Right)
}

/// Some room of `rooms` stands at `p`.
pub open spec fn has_room(rooms: Seq<Room>, p: (int, int)) -> bool {
    exists|i: int| 0 <= i < rooms.len() && #[trigger] pos(rooms[i]) == p
}

pub open spec fn count_if(b: bool) -> int {
    if b {
        1
    } else {
        0
    }
}

/// How many of the four neighbours of `p` hold a room.
pub open spec fn degree(rooms: Seq<Room>, p: (int, int)) -> int {
    count_if(has_room(rooms, step(p, Direction::Up))) + count_if(
        has_room(rooms, step(p, Direction::Down)),
    ) + count_if(has_room(rooms, step(p, Direction::Left))) + count_if(
        has_room(rooms, step(p, Direction::Right)),
    )
}

/// No two rooms share a coordinate.
pub open spec fn unique_positions(rooms: Seq<Room>) -> bool {
    forall|i: int, j: int| 0 <= i < j < rooms.len() ==> pos(rooms[i]) != pos(rooms[j])
}

/// The room that stands at `p` (meaningful where `has_room(rooms, p)`).
pub open spec fn room_at(rooms: Seq<Room>, p: (int, int)) -> Room {
    rooms[choose|i: int| 0 <= i < rooms.len() && pos(rooms[i]) == p]
}

/// A basic room at `position`, all doors open, no item.
pub open spec fn fresh_room(position: (i32, i32)) -> Room {
    Room { doors: all_open(), position, room_type: RoomType::Basic, item: None }
}

/// Where the unrevealed cell `n` touches two or more revealed rooms, `r`
/// with its door that faces `n` closed; else `r` as it is.
pub open spec fn close_if_crowded(rooms: Seq<Room>, n: (int, int), r: Room) -> Room {
    if !has_room(rooms, n) && degree(rooms, n) > 1 {
        closed_toward(r, n)
    } else {
        r
    }
}

/// `r` after the pruning that follows the reveal of `p`: each of the four
/// neighbours of `p` is considered in turn.
pub open spec fn pruned_room(rooms: Seq<Room>, p: (int, int), r: Room) -> Room {
    close_if_crowded(
        rooms,
        step(p, Direction::Right),
        close_if_crowded(
            rooms,
            step(p, Direction::Left),
            close_if_crowded(
                rooms,
                step(p, Direction::Down),
                close_if_crowded(rooms, step(p, Direction::Up), r),
            ),
        ),
    )
}

/// Every room of `rooms` after the pruning that follows the reveal of `p`.
pub open spec fn pruned_all(rooms: Seq<Room>, p: (int, int)) -> Seq<Room> {
    Seq::new(rooms.len(), |i: int| pruned_room(rooms, p, rooms[i]))
}

/// The rooms after `position` is revealed: a fresh room is added, then the
/// doors that would let a cycle form are closed.
pub open spec fn grown(rooms: Seq<Room>, position: (i32, i32)) -> Seq<Room> {
    if has_room(rooms, coord(position)) {
        rooms
    } else {
        pruned_all(rooms.push(fresh_room(position)), coord(position))
    }
}

/// `r` with every door that faces `n` closed.
pub open spec fn closed_toward(r: Room, n: (int, int)) -> Room {
    Room {
        doors: Doors {
            up: r.doors.up && step(pos(r), Direction::Up) != n,
            down: r.doors.down && step(pos(r), Direction::Down) != n,
            left: r.doors.left && step(pos(r), Direction::Left) != n,
            right: r.doors.right && step(pos(r), Direction::Right) != n,
        },
        ..r
    }
}

/// Two room lists that hold rooms at the same coordinates, index by index,
/// have the same coordinates revealed.
pub proof fn lemma_same_positions(a: Seq<Room>, b: Seq<Room>)
    requires
        a.len() == b.len(),
        forall|i: int| 0 <= i < a.len() ==> pos(#[trigger] a[i]) == pos(b[i]),
    ensures
        forall|q: (int, int)| #[trigger] has_room(a, q) == has_room(b, q),
        forall|q: (int, int)| #[trigger] degree(a, q) == degree(b, q),
        unique_positions(a) == unique_positions(b),
{
    assert(unique_positions(a) ==> unique_positions(b)) by {
        if unique_positions(a) {
            assert forall|i: int, j: int| 0 <= i < j < b.len() implies pos(b[i]) != pos(b[j]) by {
                assert(pos(a[i]) != pos(a[j]));
            }
        }
    }
    assert(unique_positions(b) ==> unique_positions(a)) by {
        if unique_positions(b) {
            assert forall|i: int, j: int| 0 <= i < j < a.len() implies pos(a[i]) != pos(a[j]) by {
                assert(pos(b[i]) != pos(b[j]));
            }
        }
    }
    assert forall|q: (int, int)| has_room(a, q) implies has_room(b, q) by {
        let i = choose|i: int| 0 <= i < a.len() && pos(a[i]) == q;
        assert(pos(b[i]) == q);
    }
    assert forall|q: (int, int)| has_room(b, q) implies has_room(a, q) by {
        let i = choose|i: int| 0 <= i < b.len() && pos(b[i]) == q;
        assert(pos(a[i]) == q);
    }
}

/// What revealing a coordinate does to the set of revealed coordinates: a
/// known one changes nothing; an unknown one is appended, and every room
/// keeps its index and its coordinate.
pub proof fn lemma_grown_shape(rooms: Seq<Room>, position: (i32, i32))
    ensures
        has_room(rooms, coord(position)) ==> grown(rooms, position) == rooms,
        !has_room(rooms, coord(position)) ==> {
            &&& grown(rooms, position).len() == rooms.len() + 1
            &&& pos(grown(rooms, position)[rooms.len() as int]) == coord(position)
            &&& forall|i: int|
                0 <= i < rooms.len() ==> pos(#[trigger] grown(rooms, position)[i]) == pos(rooms[i])
        },
        forall|q: (int, int)|
            #[trigger] has_room(grown(rooms, position), q) == (has_room(rooms, q) || q == coord(
                position,
            )),
        unique_positions(rooms) ==> unique_positions(grown(rooms, position)),
{
    let p = coord(position);
    if !has_room(rooms, p) {
        let s = rooms.push(fresh_room(position));
        let g = grown(rooms, position);
        assert forall|i: int| 0 <= i < s.len() implies pos(#[trigger] g[i]) == pos(s[i]) by {}
        lemma_same_positions(s, g);
        assert forall|q: (int, int)| has_room(s, q) == (has_room(rooms, q) || q == p) by {
            if has_room(rooms, q) {
                let i = choose|i: int| 0 <= i < rooms.len() && pos(rooms[i]) == q;
                assert(pos(s[i]) == q);
            }
            if q == p {
                assert(pos(s[rooms.len() as int]) == q);
            }
            if has_room(s, q) && q != p {
                let i = choose|i: int| 0 <= i < s.len() && pos(s[i]) == q;
                assert(pos(rooms[i]) == q);
            }
        }
        if unique_positions(rooms) {
            assert forall|i: int, j: int| 0 <= i < j < g.len() implies pos(g[i]) != pos(g[j]) by {
                assert(pos(g[i]) == pos(s[i]));
                assert(pos(g[j]) == pos(s[j]));
                if j == rooms.len() {
                    assert(pos(rooms[i]) == pos(s[i]));
                }
            }
        }
    }
}

/// Where coordinates are unique, the room at `p` is the one at any index
/// that holds `p`.
pub proof fn lemma_room_at(rooms: Seq<Room>, p: (int, int), i: int)
    requires
        unique_positions(rooms),
        0 <= i < rooms.len(),
        pos(rooms[i]) == p,
    ensures
        has_room(rooms, p),
        room_at(rooms, p) == rooms[i],
{
    let j = choose|j: int| 0 <= j < rooms.len() && pos(rooms[j]) == p;
    if j < i {
        assert(pos(rooms[j]) != pos(rooms[i]));
    } else if i < j {
        assert(pos(rooms[i]) != pos(rooms[j]));
    }
}

// ---------------------------------------------------------------------------
// Laws of growth
// ---------------------------------------------------------------------------

/// Revealing a coordinate twice in a row: the second reveal changes nothing.
pub proof fn lemma_reveal_twice(rooms: Seq<Room>, position: (i32, i32))
    ensures
        grown(grown(rooms, position), position) == grown(rooms, position),
{
    lemma_grown_shape(rooms, position);
}

/// The rooms after revealing each of `ps` in turn.
pub open spec fn reveal_all(rooms: Seq<Room>, ps: Seq<(i32, i32)>) -> Seq<Room>
    decreases ps.len(),
{
    if ps.len() == 0 {
        rooms
    } else {
        reveal_all(grown(rooms, ps[0]), ps.drop_first())
    }
}

/// Room `r` has its door toward the neighbouring coordinate `q` open.
#[verifier::opaque]
pub open spec fn opens_toward(r: Room, q: (int, int)) -> bool {
    ||| (r.doors.up && step(pos(r), Direction::Up) == q)
    ||| (r.doors.down && step(pos(r), Direction::Down) == q)
    ||| (r.doors.left && step(pos(r), Direction::Left) == q)
    ||| (r.doors.right && step(pos(r), Direction::Right) == q)
}

/// Every open door that leads to an unrevealed cell leads to a cell that no
/// other revealed room touches: there is one way at most toward each cell
/// that is still to be revealed.
pub open spec fn frontier_safe(rooms: Seq<Room>) -> bool {
    forall|i: int, q: (int, int)|
        0 <= i < rooms.len() && #[trigger] opens_toward(rooms[i], q) && !has_room(rooms, q)
            ==> degree(rooms, q) <= 1
}

/// Two rooms are joined: each has its door toward the other open.
pub open spec fn linked(a: Room, b: Room) -> bool {
    opens_toward(a, pos(b)) && opens_toward(b, pos(a))
}

/// Each room is joined to one room at most among those revealed before it.
pub open spec fn tree_like(rooms: Seq<Room>) -> bool {
    forall|a: int, b: int, c: int|
        0 <= a < b < c < rooms.len() && #[trigger] linked(rooms[a], rooms[c]) ==> !#[trigger] linked(
            rooms[b],
            rooms[c],
        )
}

/// A cycle of joined rooms: three or more distinct indices, each room joined
/// to the next and the last to the first.
pub open spec fn is_cycle(rooms: Seq<Room>, c: Seq<int>) -> bool {
    &&& c.len() >= 3
    &&& forall|t: int| 0 <= t < c.len() ==> 0 <= #[trigger] c[t] < rooms.len()
    &&& forall|t: int, u: int| 0 <= t < u < c.len() ==> c[t] != c[u]
    &&& forall|t: int| 0 <= t < c.len() - 1 ==> linked(rooms[#[trigger] c[t]], rooms[c[t + 1]])
    &&& linked(rooms[c[c.len() - 1]], rooms[c[0]])
}

proof fn lemma_max_position(c: Seq<int>) -> (t: int)
    requires
        c.len() >= 1,
    ensures
        0 <= t < c.len(),
        forall|u: int| 0 <= u < c.len() ==> #[trigger] c[u] <= c[t],
    decreases c.len(),
{
    if c.len() == 1 {
        0
    } else {
        let init = c.drop_last();
        let t0 = lemma_max_position(init);
        assert forall|u: int| 0 <= u < init.len() implies c[u] == init[u] by {}
        if c[t0] >= c[c.len() - 1] {
            t0
        } else {
            c.len() - 1
        }
    }
}

/// Rooms of which each is joined to one earlier room at most hold no cycle.
pub proof fn lemma_tree_like_acyclic(rooms: Seq<Room>, c: Seq<int>)
    requires
        tree_like(rooms),
    ensures
        !is_cycle(rooms, c),
{
    if is_cycle(rooms, c) {
        let k = c.len() as int;
        let t = lemma_max_position(c);
        let next = if t == k - 1 {
            0
        } else {
            t + 1
        };
        let prev = if t == 0 {
            k - 1
        } else {
            t - 1
        };
        assert(linked(rooms[c[t]], rooms[c[next]]));
        assert(linked(rooms[c[prev]], rooms[c[t]]));
        assert(next != t && prev != t && next != prev);
        assert(c[next] < c[t] && c[prev] < c[t]);
        assert(linked(rooms[c[next]], rooms[c[t]]));
        assert(c[next] != c[prev]) by {
            if next < prev {
                assert(c[next] != c[prev]);
            } else {
                assert(c[prev] != c[next]);
            }
        }
        assert(0 <= c[next] && 0 <= c[prev] && c[t] < rooms.len());
        if c[next] < c[prev] {
            assert(!linked(rooms[c[prev]], rooms[c[t]]));
        } else {
            assert(!linked(rooms[c[next]], rooms[c[t]]));
        }
    }
}

proof fn lemma_grown_has(rooms: Seq<Room>, position: (i32, i32))
    requires
        !has_room(rooms, coord(position)),
    ensures
        forall|q: (int, int)|
            #[trigger] has_room(rooms.push(fresh_room(position)), q) == (has_room(rooms, q) || q
                == coord(position)),
        forall|q: (int, int)|
            #[trigger] has_room(grown(rooms, position), q) == has_room(rooms.push(fresh_room(position)), q),
        forall|q: (int, int)|
            #[trigger] degree(grown(rooms, position), q) == degree(rooms.push(fresh_room(position)), q),
{
    let s = rooms.push(fresh_room(position));
    let g = grown(rooms, position);
    lemma_grown_shape(rooms, position);
    assert forall|i: int| 0 <= i < s.len() implies pos(#[trigger] s[i]) == pos(g[i]) by {}
    lemma_same_positions(s, g);
    assert forall|q: (int, int)| #[trigger] has_room(s, q) == (has_room(rooms, q) || q == coord(position)) by {
        if has_room(rooms, q) {
            let i = choose|i: int| 0 <= i < rooms.len() && pos(rooms[i]) == q;
            assert(pos(s[i]) == q);
        }
        if q == coord(position) {
            assert(pos(s[rooms.len() as int]) == q);
        }
        if has_room(s, q) && q != coord(position) {
            let i = choose|i: int| 0 <= i < s.len() && pos(s[i]) == q;
            assert(pos(rooms[i]) == q);
        }
    }
}

proof fn lemma_pruned_opens(s: Seq<Room>, p: (int, int), r: Room, q: (int, int))
    ensures
        pos(pruned_room(s, p, r)) == pos(r),
        opens_toward(pruned_room(s, p, r), q) ==> opens_toward(r, q),
        opens_toward(pruned_room(s, p, r), q) && adjacent(p, q) ==> has_room(s, q) || degree(s, q) <= 1,
{
    reveal(opens_toward);
}

proof fn lemma_opens_neighbour(r: Room, q: (int, int))
    requires
        opens_toward(r, q),
    ensures
        pos(r) == step(q, Direction::Up) || pos(r) == step(q, Direction::Down) || pos(r) == step(
            q,
            Direction::Left,
        ) || pos(r) == step(q, Direction::Right),
{
    reveal(opens_toward);
}

/// Revealing a coordinate keeps the frontier safe: where every unrevealed
/// cell touched by two or more revealed rooms has all doors toward it
/// closed, that still holds after the reveal.
pub proof fn lemma_growth_keeps_frontier_safe(rooms: Seq<Room>, position: (i32, i32))
    requires
        frontier_safe(rooms),
    ensures
        frontier_safe(grown(rooms, position)),
{
    lemma_grown_shape(rooms, position);
    let p = coord(position);
    if !has_room(rooms, p) {
        let s = rooms.push(fresh_room(position));
        let g = grown(rooms, position);
        let len = rooms.len() as int;
        lemma_grown_has(rooms, position);
        assert forall|i: int, q: (int, int)|
            0 <= i < g.len() && #[trigger] opens_toward(g[i], q) && !has_room(g, q) implies degree(g, q)
                <= 1 by {
            assert(g[i] == pruned_room(s, p, s[i]));
            lemma_pruned_opens(s, p, s[i], q);
            if !adjacent(p, q) {
                assert(i < len) by {
                    if i == len {
                        lemma_opens_neighbour(s[i], q);
                    }
                }
                assert(s[i] == rooms[i]);
                assert(!has_room(rooms, q));
                assert(has_room(s, step(q, Direction::Up)) == has_room(rooms, step(q, Direction::Up)));
                assert(has_room(s, step(q, Direction::Down)) == has_room(rooms, step(q, Direction::Down)));
                assert(has_room(s, step(q, Direction::Left)) == has_room(rooms, step(q, Direction::Left)));
                assert(has_room(s, step(q, Direction::Right)) == has_room(rooms, step(q, Direction::Right)));
            }
        }
    }
}

/// Revealing a coordinate keeps the frontier safe and the joined rooms
/// tree-like.
pub proof fn lemma_growth_keeps_tree(rooms: Seq<Room>, position: (i32, i32))
    requires
        unique_positions(rooms),
        frontier_safe(rooms),
        tree_like(rooms),
    ensures
        unique_positions(grown(rooms, position)),
        frontier_safe(grown(rooms, position)),
        tree_like(grown(rooms, position)),
{
    lemma_grown_shape(rooms, position);
    let p = coord(position);
    if !has_room(rooms, p) {
        let s = rooms.push(fresh_room(position));
        let g = grown(rooms, position);
        let len = rooms.len() as int;
        lemma_grown_has(rooms, position);
        lemma_growth_keeps_frontier_safe(rooms, position);
        assert forall|a: int, b: int, c: int|
            0 <= a < b < c < g.len() && #[trigger] linked(g[a], g[c]) implies !#[trigger] linked(g[b], g[c]) by {
            assert(g[a] == pruned_room(s, p, s[a]));
            assert(g[b] == pruned_room(s, p, s[b]));
            assert(g[c] == pruned_room(s, p, s[c]));
            lemma_pruned_opens(s, p, s[a], pos(s[c]));
            lemma_pruned_opens(s, p, s[b], pos(s[c]));
            lemma_pruned_opens(s, p, s[c], pos(s[a]));
            lemma_pruned_opens(s, p, s[c], pos(s[b]));
            if linked(g[b], g[c]) {
                assert(s[a] == rooms[a] && s[b] == rooms[b]);
                if c < len {
                    assert(s[c] == rooms[c]);
                    assert(linked(rooms[a], rooms[c]));
                    assert(linked(rooms[b], rooms[c]));
                } else {
                    assert(pos(s[c]) == p);
                    assert(opens_toward(rooms[a], p));
                    assert(opens_toward(rooms[b], p));
                    lemma_opens_neighbour(rooms[a], p);
                    lemma_opens_neighbour(rooms[b], p);
                    assert(pos(rooms[a]) != pos(rooms[b]));
                    assert(has_room(rooms, pos(rooms[a])));
                    assert(has_room(rooms, pos(rooms[b])));
                    assert(degree(rooms, p) <= 1);
                }
            }
        }
    }
}

/// Whatever coordinates are revealed, in whatever order, from a map that
/// holds the exit room alone: no open door leads toward an unrevealed cell
/// that another revealed room touches, each room is joined to one earlier
/// room at most, and no cycle of joined rooms exists.
pub proof fn lemma_reveals_never_close_a_cycle(ps: Seq<(i32, i32)>, c: Seq<int>)
    ensures
        frontier_safe(reveal_all(seq![fresh_room((0, 0))], ps)),
        tree_like(reveal_all(seq![fresh_room((0, 0))], ps)),
        !is_cycle(reveal_all(seq![fresh_room((0, 0))], ps), c),
{
    let start = seq![fresh_room((0, 0))];
    lemma_exit_room_alone_is_tree();
    lemma_reveal_all_keeps_tree(start, ps);
    lemma_tree_like_acyclic(reveal_all(start, ps), c);
}

/// A map that holds the exit room alone is frontier-safe and tree-like.
pub proof fn lemma_exit_room_alone_is_tree()
    ensures
        unique_positions(seq![fresh_room((0, 0))]),
        frontier_safe(seq![fresh_room((0, 0))]),
        tree_like(seq![fresh_room((0, 0))]),
{
    let start = seq![fresh_room((0, 0))];
    assert forall|i: int, q: (int, int)|
        0 <= i < start.len() && #[trigger] opens_toward(start[i], q) && !has_room(start, q) implies degree(
        start,
        q,
    ) <= 1 by {
        assert(i == 0);
        reveal(opens_toward);
        let o = pos(start[0]);
        assert forall|x: (int, int)| #[trigger] has_room(start, x) implies x == o by {}
        assert(!(step(q, Direction::Up) == o && step(q, Direction::Down) == o));
        assert(!(step(q, Direction::Left) == o && step(q, Direction::Right) == o));
        assert(!(step(q, Direction::Up) == o && step(q, Direction::Left) == o));
        assert(!(step(q, Direction::Up) == o && step(q, Direction::Right) == o));
        assert(!(step(q, Direction::Down) == o && step(q, Direction::Left) == o));
        assert(!(step(q, Direction::Down) == o && step(q, Direction::Right) == o));
    }
}

/// Revealing one more coordinate after a list of them.
pub proof fn lemma_reveal_all_push(rooms: Seq<Room>, ps: Seq<(i32, i32)>, p: (i32, i32))
    ensures
        reveal_all(rooms, ps.push(p)) == grown(reveal_all(rooms, ps), p),
    decreases ps.len(),
{
    if ps.len() == 0 {
        assert(ps.push(p).drop_first() =~= Seq::<(i32, i32)>::empty());
        assert(ps.push(p)[0] == p);
        assert(reveal_all(grown(rooms, p), Seq::<(i32, i32)>::empty()) == grown(rooms, p));
        assert(reveal_all(rooms, ps) == rooms);
    } else {
        assert(ps.push(p).drop_first() =~= ps.drop_first().push(p));
        assert(ps.push(p)[0] == ps[0]);
        lemma_reveal_all_push(grown(rooms, ps[0]), ps.drop_first(), p);
    }
}

/// Revealing coordinates puts no item anywhere.
pub proof fn lemma_items_none_after_reveals(rooms: Seq<Room>, ps: Seq<(i32, i32)>)
    requires
        forall|i: int| 0 <= i < rooms.len() ==> (#[trigger] rooms[i]).item is None,
    ensures
        forall|i: int|
            0 <= i < reveal_all(rooms, ps).len() ==> (#[trigger] reveal_all(rooms, ps)[i]).item is None,
    decreases ps.len(),
{
    if ps.len() > 0 {
        let g = grown(rooms, ps[0]);
        if !has_room(rooms, coord(ps[0])) {
            let s = rooms.push(fresh_room(ps[0]));
            assert forall|i: int| 0 <= i < g.len() implies (#[trigger] g[i]).item is None by {
                assert(g[i] == pruned_room(s, coord(ps[0]), s[i]));
                assert(s[i].item is None);
            }
        }
        lemma_items_none_after_reveals(g, ps.drop_first());
    }
}

/// Revealing a coordinate keeps every item where it was; an added room holds
/// none.
pub proof fn lemma_grown_items(rooms: Seq<Room>, position: (i32, i32))
    ensures
        grown(rooms, position).len() >= rooms.len(),
        forall|i: int| 0 <= i < rooms.len() ==> (#[trigger] grown(rooms, position)[i]).item == rooms[i].item,
        !has_room(rooms, coord(position)) ==> grown(rooms, position)[rooms.len() as int].item is None,
{
    if !has_room(rooms, coord(position)) {
        let s = rooms.push(fresh_room(position));
        let g = grown(rooms, position);
        assert forall|i: int| 0 <= i < s.len() implies (#[trigger] g[i]).item == s[i].item by {
            assert(g[i] == pruned_room(s, coord(position), s[i]));
        }
        assert(g[rooms.len() as int].item == s[rooms.len() as int].item);
    }
}

/// Two room lists with the same rooms at the same indices, doors included:
/// only the items may differ.
pub open spec fn same_layout(a: Seq<Room>, b: Seq<Room>) -> bool {
    &&& a.len() == b.len()
    &&& forall|i: int|
        0 <= i < a.len() ==> (#[trigger] a[i]).position == b[i].position && a[i].doors == b[i].doors
            && a[i].room_type == b[i].room_type
}

/// Items play no part in the shape of the map.
pub proof fn lemma_same_layout(a: Seq<Room>, b: Seq<Room>)
    requires
        same_layout(a, b),
    ensures
        forall|q: (int, int)| #[trigger] has_room(a, q) == has_room(b, q),
        forall|q: (int, int)| #[trigger] degree(a, q) == degree(b, q),
        unique_positions(a) == unique_positions(b),
        frontier_safe(a) == frontier_safe(b),
        tree_like(a) == tree_like(b),
{
    assert forall|i: int| 0 <= i < a.len() implies pos(#[trigger] a[i]) == pos(b[i]) by {}
    lemma_same_positions(a, b);
    assert forall|i: int, q: (int, int)| 0 <= i < a.len() implies #[trigger] opens_toward(a[i], q)
        == opens_toward(b[i], q) by {
        reveal(opens_toward);
    }
    assert forall|x: int, y: int| 0 <= x < a.len() && 0 <= y < a.len() implies #[trigger] linked(
        a[x],
        a[y],
    ) == linked(b[x], b[y]) by {
        assert(opens_toward(a[x], pos(a[y])) == opens_toward(b[x], pos(b[y])));
        assert(opens_toward(a[y], pos(a[x])) == opens_toward(b[y], pos(b[x])));
    }
    if frontier_safe(a) {
        assert forall|i: int, q: (int, int)|
            0 <= i < b.len() && #[trigger] opens_toward(b[i], q) && !has_room(b, q) implies degree(b, q)
                <= 1 by {
            assert(opens_toward(a[i], q));
        }
    }
    if frontier_safe(b) {
        assert forall|i: int, q: (int, int)|
            0 <= i < a.len() && #[trigger] opens_toward(a[i], q) && !has_room(a, q) implies degree(a, q)
                <= 1 by {
            assert(opens_toward(b[i], q));
        }
    }
    if tree_like(a) {
        assert forall|x: int, y: int, z: int|
            0 <= x < y < z < b.len() && #[trigger] linked(b[x], b[z]) implies !#[trigger] linked(b[y], b[z]) by {
            assert(linked(a[x], a[z]));
            assert(linked(a[y], a[z]) == linked(b[y], b[z]));
        }
    }
    if tree_like(b) {
        assert forall|x: int, y: int, z: int|
            0 <= x < y < z < a.len() && #[trigger] linked(a[x], a[z]) implies !#[trigger] linked(a[y], a[z]) by {
            assert(linked(b[x], b[z]));
            assert(linked(a[y], a[z]) == linked(b[y], b[z]));
        }
    }
}

/// Revealing the same coordinate in two maps of the same layout gives maps of
/// the same layout.
#[verifier::rlimit(40)]
pub proof fn lemma_same_layout_grown(a: Seq<Room>, b: Seq<Room>, p: (i32, i32))
    requires
        same_layout(a, b),
    ensures
        same_layout(grown(a, p), grown(b, p)),
{
    lemma_same_layout(a, b);
    if !has_room(a, coord(p)) {
        let sa = a.push(fresh_room(p));
        let sb = b.push(fresh_room(p));
        assert(same_layout(sa, sb));
        lemma_same_layout(sa, sb);
        let q = coord(p);
        assert(has_room(sa, step(q, Direction::Up)) == has_room(sb, step(q, Direction::Up)));
        assert(has_room(sa, step(q, Direction::Down)) == has_room(sb, step(q, Direction::Down)));
        assert(has_room(sa, step(q, Direction::Left)) == has_room(sb, step(q, Direction::Left)));
        assert(has_room(sa, step(q, Direction::Right)) == has_room(sb, step(q, Direction::Right)));
        assert(degree(sa, step(q, Direction::Up)) == degree(sb, step(q, Direction::Up)));
        assert(degree(sa, step(q, Direction::Down)) == degree(sb, step(q, Direction::Down)));
        assert(degree(sa, step(q, Direction::Left)) == degree(sb, step(q, Direction::Left)));
        assert(degree(sa, step(q, Direction::Right)) == degree(sb, step(q, Direction::Right)));
        let ga = grown(a, p);
        let gb = grown(b, p);
        assert forall|i: int| 0 <= i < ga.len() implies (#[trigger] ga[i]).position == gb[i].position
            && ga[i].doors == gb[i].doors && ga[i].room_type == gb[i].room_type by {
            assert(ga[i] == pruned_room(sa, q, sa[i]));
            assert(gb[i] == pruned_room(sb, q, sb[i]));
        }
    }
}

proof fn lemma_reveal_all_keeps_tree(rooms: Seq<Room>, ps: Seq<(i32, i32)>)
    requires
        unique_positions(rooms),
        frontier_safe(rooms),
        tree_like(rooms),
    ensures
        unique_positions(reveal_all(rooms, ps)),
        frontier_safe(reveal_all(rooms, ps)),
        tree_like(reveal_all(rooms, ps)),
    decreases ps.len(),
{
    if ps.len() > 0 {
        lemma_growth_keeps_tree(rooms, ps[0]);
        lemma_reveal_all_keeps_tree(grown(rooms, ps[0]), ps.drop_first());
    }
}

// ---------------------------------------------------------------------------
// GameMap
// ---------------------------------------------------------------------------

/// The revealed rooms of a round, each at its own coordinate. The first room
/// is the exit room at the origin.
#[derive(Clone, Debug)]
pub struct GameMap {
    pub rooms: Vec<Room>,
}

impl GameMap {
    /// The map invariant: the exit room at the origin comes first, and no
    /// two rooms share a coordinate.
    pub open spec fn wf(&self) -> bool {
        &&& self.rooms@.len() >= 1
        &&& pos(self.rooms@[0]) == (0int, 0int)
        &&& unique_positions(self.rooms@)
    }

    pub open spec fn has(&self, p: (int, int)) -> bool {
        has_room(self.rooms@, p)
    }

    /// Index of the room at `(x, y)`, if there is one.
    pub fn find(&self, x: i64, y: i64) -> (r: Option<usize>)
        ensures
            match r {
                Some(i) => i < self.rooms@.len() && pos(self.rooms@[i as int]) == (x as int, y as int),
                None => !self.has((x as int, y as int)),
            },
    {
        let mut i: usize = 0;
        while i < self.rooms.len()
            invariant
                i <= self.rooms@.len(),
                forall|j: int| 0 <= j < i ==> pos(#[trigger] self.rooms@[j]) != (x as int, y as int),
            decreases self.rooms@.len() - i,
        {
            let p = self.rooms[i].position;
            if p.0 as i64 == x && p.1 as i64 == y {
                return Some(i);
            }
            i += 1;
        }
        None
    }

    fn contains(&self, x: i64, y: i64) -> (r: bool)
        ensures
            r == self.has((x as int, y as int)),
    {
        self.find(x, y).is_some()
    }

    pub fn room(&self, x: i32, y: i32) -> (r: Option<&Room>)
        ensures
            match r {
                Some(room) => exists|i: int|
                    0 <= i < self.rooms@.len() && self.rooms@[i] == *room && pos(*room) == (
                        x as int,
                        y as int,
                    ),
                None => !self.has((x as int, y as int)),
            },
    {
        match self.find(x as i64, y as i64) {
            Some(i) => Some(&self.rooms[i]),
            None => None,
        }
    }

    pub fn mut_room(&mut self, x: i32, y: i32) -> (r: Option<&mut Room>)
        ensures
            match r {
                Some(room) => exists|i: int|
                    0 <= i < old(self).rooms@.len() && old(self).rooms@[i] == *room && pos(*room)
                        == (x as int, y as int) && final(self).rooms@ == old(self).rooms@.update(
                        i,
                        *final(room),
                    ),
                None => !old(self).has((x as int, y as int)) && *final(self) == *old(self),
            },
    {
        match self.find(x as i64, y as i64) {
            Some(i) => Some(&mut self.rooms[i]),
            None => None,
        }
    }

    pub fn room_mut(&mut self, x: i32, y: i32) -> (r: Option<&mut Room>)
        ensures
            match r {
                Some(room) => exists|i: int|
                    0 <= i < old(self).rooms@.len() && old(self).rooms@[i] == *room && pos(*room)
                        == (x as int, y as int) && final(self).rooms@ == old(self).rooms@.update(
                        i,
                        *final(room),
                    ),
                None => !old(self).has((x as int, y as int)) && *final(self) == *old(self),
            },
    {
        self.mut_room(x, y)
    }

    /// Puts `room` at `position`, in place of the room that stood there. A
    /// room is known by its coordinate, so `room` must carry `position`: the
    /// map keeps no key apart from the rooms themselves.
    pub fn add_room(&mut self, position: (i32, i32), room: Room)
        requires
            room.position == position,
        ensures
            old(self).has(coord(position)) ==> exists|i: int|
                0 <= i < old(self).rooms@.len() && pos(old(self).rooms@[i]) == coord(position)
                    && final(self).rooms@ == old(self).rooms@.update(i, room),
            !old(self).has(coord(position)) ==> final(self).rooms@ == old(self).rooms@.push(room),
    {
        match self.find(position.0 as i64, position.1 as i64) {
            Some(i) => {
                self.rooms.set(i, room);
            },
            None => {
                self.rooms.push(room);
            },
        }
    }

    fn degree_at(&self, x: i64, y: i64) -> (r: u32)
        requires
            i32::MIN - 1 <= x <= i32::MAX + 1,
            i32::MIN - 1 <= y <= i32::MAX + 1,
        ensures
            r as int == degree(self.rooms@, (x as int, y as int)),
    {
        let mut d: u32 = 0;
        if self.contains(x, y + 1) {
            d += 1;
        }
        if self.contains(x, y - 1) {
            d += 1;
        }
        if self.contains(x - 1, y) {
            d += 1;
        }
        if self.contains(x + 1, y) {
            d += 1;
        }
        d
    }

    /// How many of the four neighbours of `position` are revealed.
    pub fn room_degree(&self, position: (i32, i32)) -> (r: i32)
        ensures
            r as int == degree(self.rooms@, coord(position)),
    {
        self.degree_at(position.0 as i64, position.1 as i64) as i32
    }

    /// Closes, on every room, the door that faces `(x, y)`.
    fn close_doors_toward(&mut self, x: i64, y: i64)
        ensures
            final(self).rooms@.len() == old(self).rooms@.len(),
            forall|i: int|
                0 <= i < old(self).rooms@.len() ==> final(self).rooms@[i] == closed_toward(
                    #[trigger] old(self).rooms@[i],
                    (x as int, y as int),
                ),
    {
        let mut i: usize = 0;
        while i < self.rooms.len()
            invariant
                i <= self.rooms@.len(),
                self.rooms@.len() == old(self).rooms@.len(),
                forall|j: int|
                    0 <= j < i ==> self.rooms@[j] == closed_toward(#[trigger] old(self).rooms@[j], (x as int, y as int)),
                forall|j: int| i <= j < self.rooms@.len() ==> self.rooms@[j] == old(self).rooms@[j],
            decreases self.rooms@.len() - i,
        {
            let mut r = self.rooms[i];
            let rx = r.position.0 as i64;
            let ry = r.position.1 as i64;
            if rx == x && ry + 1 == y {
                r.doors.up = false;
            }
            if rx == x && ry - 1 == y {
                r.doors.down = false;
            }
            if rx - 1 == x && ry == y {
                r.doors.left = false;
            }
            if rx + 1 == x && ry == y {
                r.doors.right = false;
            }
            self.rooms.set(i, r);
            i += 1;
        }
    }

    /// Where `(x, y)` is unrevealed and two or more of its neighbours are
    /// revealed, closes every door that faces it.
    fn prune_toward(&mut self, x: i64, y: i64)
        requires
            i32::MIN - 1 <= x <= i32::MAX + 1,
            i32::MIN - 1 <= y <= i32::MAX + 1,
        ensures
            final(self).rooms@.len() == old(self).rooms@.len(),
            forall|i: int|
                0 <= i < old(self).rooms@.len() ==> final(self).rooms@[i] == close_if_crowded(
                    old(self).rooms@,
                    (x as int, y as int),
                    #[trigger] old(self).rooms@[i],
                ),
    {
        if !self.contains(x, y) && self.degree_at(x, y) > 1 {
            self.close_doors_toward(x, y);
        }
    }
}

impl Default for GameMap {
    /// A map that holds the exit room at the origin alone.
    fn default() -> (r: GameMap)
        ensures
            r.rooms@ == seq![fresh_room((0, 0))],
    {
        let mut rooms = Vec::new();
        rooms.push(Room::new((0, 0)));
        GameMap { rooms }
    }
}

// ---------------------------------------------------------------------------
// Players, messages and the game state
// ---------------------------------------------------------------------------

/// A line of the round's log.
#[derive(Clone, Debug)]
pub struct Message {
    pub text: String,
}

impl Message {
    pub fn new(text: String) -> (r: Message)
        ensures
            r.text@ == text@,
    {
        Message { text }
    }
}

/// A point of the world, in pixels: a room spans 256 of them on each axis.
#[derive(Clone, Copy, Debug, PartialEq, Eq, Structural)]
pub struct Position {
    pub x: i64,
    pub y: i64,
}

#[derive(Clone, Debug)]
pub struct Player {
    pub name: String,
    pub position: Position,
    pub ready: bool,
}

/// The shared state of one game.
#[derive(Clone, Debug)]
pub struct Gamestate {
    /// Each player under its identifier.
    pub players: Vec<(String, Player)>,
    pub map: GameMap,
    pub started: bool,
    pub keys: u32,
    /// The round's log, oldest first.
    pub messages: Vec<Message>,
    pub round: u32,
}

/// The key count at which the exit opens.
pub const KEYS_TO_EXIT: u32 = 8;

/// No two players share an identifier.
pub open spec fn unique_ids(players: Seq<(String, Player)>) -> bool {
    forall|i: int, j: int| 0 <= i < j < players.len() ==> players[i].0@ != players[j].0@
}

/// Some player is registered under `id`.
pub open spec fn has_player(players: Seq<(String, Player)>, id: Seq<char>) -> bool {
    exists|i: int| 0 <= i < players.len() && #[trigger] players[i].0@ == id
}

/// The centre of a room, in world pixels.
pub open spec fn room_center(r: Room) -> Position {
    Position {
        x: (r.position.0 as int * 256 + 128) as i64,
        y: (r.position.1 as int * 256 + 128) as i64,
    }
}

/// Which room a spawn draw picks: one of the rooms after the exit room where
/// there are any, else the exit room.
pub open spec fn spawn_index(len: int, roll: u32) -> int {
    if len > 1 {
        1 + (roll as int) % (len - 1)
    } else {
        0
    }
}

impl Gamestate {
    pub open spec fn wf(&self) -> bool {
        &&& self.map.wf()
        &&& self.keys <= KEYS_TO_EXIT
        &&& self.round >= 1
        &&& unique_ids(self.players@)
    }

    /// The centre of the room that `roll` picks for a spawn.
    pub fn spawn_point(&self, roll: u32) -> (r: Position)
        requires
            self.map.wf(),
        ensures
            r == room_center(self.map.rooms@[spawn_index(self.map.rooms@.len() as int, roll)]),
    {
        let len = self.map.rooms.len();
        let k: usize = if len > 1 {
            1 + (roll as usize) % (len - 1)
        } else {
            0
        };
        let room = &self.map.rooms[k];
        Position { x: room.position.0 as i64 * 256 + 128, y: room.position.1 as i64 * 256 + 128 }
    }

    /// Starts a new round: a fresh map, no keys, an empty log, the next round
    /// number. Players and the `started` flag are kept.
    pub fn next_round(&mut self)
        ensures
            final(self).map.rooms@ == seq![fresh_room((0, 0))],
            final(self).keys == 0,
            final(self).round == if old(self).round < u32::MAX {
                old(self).round + 1
            } else {
                old(self).round as int
            },
            final(self).messages@.len() == 0,
            final(self).players@ == old(self).players@,
            final(self).started == old(self).started,
    {
        self.map = GameMap::default();
        self.keys = 0;
        self.round = self.round.saturating_add(1);
        self.messages = Vec::new();
    }

    /// Reveals `position`: adds a fresh room there and prunes doors. Returns
    /// whether a room was added; a known coordinate leaves everything as it was.
    pub fn add_room(&mut self, position: (i32, i32)) -> (r: bool)
        ensures
            r == !old(self).map.has(coord(position)),
            final(self).map.rooms@ == grown(old(self).map.rooms@, position),
            old(self).map.wf() ==> final(self).map.wf(),
            frontier_safe(old(self).map.rooms@) ==> frontier_safe(final(self).map.rooms@),
            final(self).players == old(self).players,
            final(self).started == old(self).started,
            final(self).keys == old(self).keys,
            final(self).messages == old(self).messages,
            final(self).round == old(self).round,
    {
        if self.map.contains(position.0 as i64, position.1 as i64) {
            return false;
        }
        self.map.add_room(position, Room::new(position));
        self.remove_doors(position);
        proof {
            lemma_grown_shape(old(self).map.rooms@, position);
            if frontier_safe(old(self).map.rooms@) {
                lemma_growth_keeps_frontier_safe(old(self).map.rooms@, position);
            }
        }
        true
    }

    /// Closes the doors that the reveal of `position` calls for: for each
    /// unrevealed neighbour of `position` that two or more revealed rooms
    /// touch, the doors that face it.
    pub fn remove_doors(&mut self, position: (i32, i32))
        ensures
            final(self).map.rooms@ == pruned_all(old(self).map.rooms@, coord(position)),
            final(self).players == old(self).players,
            final(self).started == old(self).started,
            final(self).keys == old(self).keys,
            final(self).messages == old(self).messages,
            final(self).round == old(self).round,
    {
        let ghost s0 = self.map.rooms@;
        let ghost p = coord(position);
        let ghost n1 = step(p, Direction::Up);
        let ghost n2 = step(p, Direction::Down);
        let ghost n3 = step(p, Direction::Left);
        let ghost n4 = step(p, Direction::Right);
        let x = position.0 as i64;
        let y = position.1 as i64;
        self.map.prune_toward(x, y + 1);
        let ghost s1 = self.map.rooms@;
        self.map.prune_toward(x, y - 1);
        let ghost s2 = self.map.rooms@;
        self.map.prune_toward(x - 1, y);
        let ghost s3 = self.map.rooms@;
        self.map.prune_toward(x + 1, y);
        proof {
            lemma_same_positions(s0, s1);
            lemma_same_positions(s0, s2);
            lemma_same_positions(s0, s3);
            assert(has_room(s1, n2) == has_room(s0, n2) && degree(s1, n2) == degree(s0, n2));
            assert(has_room(s2, n3) == has_room(s0, n3) && degree(s2, n3) == degree(s0, n3));
            assert(has_room(s3, n4) == has_room(s0, n4) && degree(s3, n4) == degree(s0, n4));
            assert forall|i: int| 0 <= i < s0.len() implies #[trigger] self.map.rooms@[i]
                == pruned_room(s0, p, s0[i]) by {
                assert(s1[i] == close_if_crowded(s0, n1, s0[i]));
                assert(s2[i] == close_if_crowded(s1, n2, s1[i]));
                assert(s3[i] == close_if_crowded(s2, n3, s2[i]));
            }
            assert(self.map.rooms@ =~= pruned_all(s0, p));
        }
    }
}

impl Default for Gamestate {
    /// Round one, not started, no players, no keys, an empty log and a map
    /// that holds the exit room alone.
    fn default() -> (r: Gamestate)
        ensures
            r.players@.len() == 0,
            r.map.rooms@ == seq![fresh_room((0, 0))],
            !r.started,
            r.keys == 0,
            r.messages@.len() == 0,
            r.round == 1,
    {
        Gamestate {
            players: Vec::new(),
            map: GameMap::default(),
            started: false,
            keys: 0,
            messages: Vec::new(),
            round: 1,
        }
    }
}

} // verus!
