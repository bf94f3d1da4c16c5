use vstd::prelude::*;

verus! {

/// Width and height of a room, in tiles.
pub const ROOM_SIZE: usize = 16;

/// One of the four cardinal directions of the room grid.
///
/// `Up` points towards larger `y`, `Right` towards larger `x`.
#[derive(Clone, Copy, Debug, PartialEq, Eq, Structural)]
pub enum Direction {
    Down,
    Up,
    Left,
    Right,
}

/// The name of a direction, as it is written on the wire.
pub open spec fn direction_name(d: Direction) -> Seq<char> {
    match d {
        Direction::Down => "Down"@,
        Direction::Up => "Up"@,
        Direction::Left => "Left"@,
        Direction::Right => "Right"@,
    }
}

impl Direction {
    pub fn to_string(&self) -> (r: String)
        ensures
            r@ == direction_name(*self),
    {
        match self {
            Direction::Down => String::from_str("Down"),
            Direction::Up => String::from_str("Up"),
            Direction::Left => String::from_str("Left"),
            Direction::Right => String::from_str("Right"),
        }
    }
}

} // verus!
