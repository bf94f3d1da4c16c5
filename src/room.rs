use vstd::prelude::*;

use crate::utils::Direction;

verus! {

/// Orientation of a wall tile, as the sprites distinguish them.
#[derive(Clone, Copy, Debug, PartialEq, Eq, Structural)]
pub enum WallType {
    North,
    South,
    East,
    West,
    InnerNorthEast,
    InnerNorthWest,
    InnerSouthEast,
    InnerSouthWest,
    OuterNorthEast,
    OuterNorthWest,
    OuterSouthEast,
    OuterSouthWest,
}

/// What a single tile of a room layout is.
#[derive(Clone, Copy, Debug, PartialEq, Eq, Structural)]
pub enum TileType {
    Empty,
    Floor,
    Wall(WallType),
    Door(Direction),
}

/// The layout of a room.
#[derive(Clone, Copy, Debug, PartialEq, Eq, Structural)]
pub enum RoomType {
    Basic,
}

/// A tile of a room together with its local coordinate.
pub struct Tile {
    pub x: i32,
    pub y: i32,
    pub tile_type: TileType,
}

/// Something that can lie in a room: keys open the exit, the others are curses.
#[derive(Clone, Copy, Debug, PartialEq, Eq, Structural)]
pub enum Item {
    Key,
    Clear,
    Spin,
    Bad,
}

/// Open flags of the four doors of a room.
#[derive(Clone, Copy, Debug, PartialEq, Eq, Structural)]
pub struct Doors {
    pub up: bool,
    pub down: bool,
    pub left: bool,
    pub right: bool,
}

/// One cell of the dungeon.
#[derive(Clone, Copy, Debug)]
pub struct Room {
    pub doors: Doors,
    pub position: (i32, i32),
    pub room_type: RoomType,
    /// An item and the local tile it lies on.
    pub item: Option<(Item, (u32, u32))>,
}

/// A local coordinate lies inside a room.
pub open spec fn in_room(x: int, y: int) -> bool {
    0 <= x < 16 && 0 <= y < 16
}

/// The wall pieces of the four short corridors that lead to the doors, and of
/// the room's rim. `r` counts rows from the top (`r == 15 - y`).
pub open spec fn basic_tile_row(r: int, x: int) -> TileType {
    if r == 0 || r == 15 {
        if 6 <= x <= 9 {
            TileType::Door(if r == 0 { Direction::Up } else { Direction::Down })
        } else if x == 5 {
            TileType::Wall(WallType::West)
        } else if x == 10 {
            TileType::Wall(WallType::East)
        } else {
            TileType::Empty
        }
    } else if r == 1 || r == 14 {
        let north = r == 1;
        if x == 0 || x == 15 {
            TileType::Empty
        } else if 6 <= x <= 9 {
            TileType::Floor
        } else if x == 1 {
            TileType::Wall(if north { WallType::InnerNorthWest } else { WallType::InnerSouthWest })
        } else if x == 14 {
            TileType::Wall(if north { WallType::InnerNorthEast } else { WallType::InnerSouthEast })
        } else if x == 5 {
            TileType::Wall(if north { WallType::OuterNorthWest } else { WallType::OuterSouthWest })
        } else if x == 10 {
            TileType::Wall(if north { WallType::OuterNorthEast } else { WallType::OuterSouthEast })
        } else {
            TileType::Wall(if north { WallType::North } else { WallType::South })
        }
    } else if r == 5 || r == 10 {
        let north = r == 5;
        if x == 0 || x == 15 {
            TileType::Wall(if north { WallType::North } else { WallType::South })
        } else if x == 1 {
            TileType::Wall(if north { WallType::OuterNorthWest } else { WallType::OuterSouthWest })
        } else if x == 14 {
            TileType::Wall(if north { WallType::OuterNorthEast } else { WallType::OuterSouthEast })
        } else {
            TileType::Floor
        }
    } else if 6 <= r <= 9 {
        if x == 0 {
            TileType::Door(Direction::Left)
        } else if x == 15 {
            TileType::Door(Direction::Right)
        } else {
            TileType::Floor
        }
    } else {
        if x == 0 || x == 15 {
            TileType::Empty
        } else if x == 1 {
            TileType::Wall(WallType::West)
        } else if x == 14 {
            TileType::Wall(WallType::East)
        } else {
            TileType::Floor
        }
    }
}

/// The basic layout: a square hall with a corridor and a door on each side;
/// `y` grows upwards.
pub open spec fn basic_tile(x: int, y: int) -> TileType {
    basic_tile_row(15 - y, x)
}

pub open spec fn layout_tile(t: RoomType, x: int, y: int) -> TileType {
    match t {
        RoomType::Basic => basic_tile(x, y),
    }
}

/// Whether the door on side `d` is open.
pub open spec fn door_open(doors: Doors, d: Direction) -> bool {
    match d {
        Direction::Up => doors.up,
        Direction::Down => doors.down,
        Direction::Left => doors.left,
        Direction::Right => doors.right,
    }
}

/// The doors with the one on side `d` set to `open`.
pub open spec fn doors_with(doors: Doors, d: Direction, open: bool) -> Doors {
    match d {
        Direction::Up => Doors { up: open, ..doors },
        Direction::Down => Doors { down: open, ..doors },
        Direction::Left => Doors { left: open, ..doors },
        Direction::Right => Doors { right: open, ..doors },
    }
}

pub open spec fn all_open() -> Doors {
    Doors { up: true, down: true, left: true, right: true }
}

/// A tile that blocks movement: a wall, or a door that is closed.
pub open spec fn wall_at(room: Room, x: int, y: int) -> bool {
    match layout_tile(room.room_type, x, y) {
        TileType::Wall(_) => true,
        TileType::Door(d) => !door_open(room.doors, d),
        _ => false,
    }
}

/// A door tile whose door is open.
pub open spec fn door_at(room: Room, x: int, y: int) -> bool {
    match layout_tile(room.room_type, x, y) {
        TileType::Door(d) => door_open(room.doors, d),
        _ => false,
    }
}

fn basic_layout(x: i32, y: i32) -> (r: TileType)
    requires
        in_room(x as int, y as int),
    ensures
        r == basic_tile(x as int, y as int),
{
    let row: i32 = 15 - y;
    if row == 0 || row == 15 {
        if 6 <= x && x <= 9 {
            if row == 0 {
                TileType::Door(Direction::Up)
            } else {
                TileType::Door(Direction::Down)
            }
        } else if x == 5 {
            TileType::Wall(WallType::West)
        } else if x == 10 {
            TileType::Wall(WallType::East)
        } else {
            TileType::Empty
        }
    } else if row == 1 || row == 14 {
        let north = row == 1;
        if x == 0 || x == 15 {
            TileType::Empty
        } else if 6 <= x && x <= 9 {
            TileType::Floor
        } else if x == 1 {
            TileType::Wall(if north { WallType::InnerNorthWest } else { WallType::InnerSouthWest })
        } else if x == 14 {
            TileType::Wall(if north { WallType::InnerNorthEast } else { WallType::InnerSouthEast })
        } else if x == 5 {
            TileType::Wall(if north { WallType::OuterNorthWest } else { WallType::OuterSouthWest })
        } else if x == 10 {
            TileType::Wall(if north { WallType::OuterNorthEast } else { WallType::OuterSouthEast })
        } else {
            TileType::Wall(if north { WallType::North } else { WallType::South })
        }
    } else if row == 5 || row == 10 {
        let north = row == 5;
        if x == 0 || x == 15 {
            TileType::Wall(if north { WallType::North } else { WallType::South })
        } else if x == 1 {
            TileType::Wall(if north { WallType::OuterNorthWest } else { WallType::OuterSouthWest })
        } else if x == 14 {
            TileType::Wall(if north { WallType::OuterNorthEast } else { WallType::OuterSouthEast })
        } else {
            TileType::Floor
        }
    } else if 6 <= row && row <= 9 {
        if x == 0 {
            TileType::Door(Direction::Left)
        } else if x == 15 {
            TileType::Door(Direction::Right)
        } else {
            TileType::Floor
        }
    } else if x == 0 || x == 15 {
        TileType::Empty
    } else if x == 1 {
        TileType::Wall(WallType::West)
    } else if x == 14 {
        TileType::Wall(WallType::East)
    } else {
        TileType::Floor
    }
}

impl RoomType {
    /// The tile at a local coordinate; it does not depend on any door.
    pub fn tile(&self, position: (i32, i32)) -> (r: Tile)
        requires
            in_room(position.0 as int, position.1 as int),
        ensures
            r.x == position.0,
            r.y == position.1,
            r.tile_type == layout_tile(*self, position.0 as int, position.1 as int),
    {
        match self {
            RoomType::Basic => Tile {
                x: position.0,
                y: position.1,
                tile_type: basic_layout(position.0, position.1),
            },
        }
    }
}

impl Doors {
    pub fn open(&self, d: Direction) -> (r: bool)
        ensures
            r == door_open(*self, d),
    {
        match d {
            Direction::Up => self.up,
            Direction::Down => self.down,
            Direction::Left => self.left,
            Direction::Right => self.right,
        }
    }

    pub fn set(&mut self, d: Direction, open: bool)
        ensures
            *final(self) == doors_with(*old(self), d, open),
    {
        match d {
            Direction::Up => self.up = open,
            Direction::Down => self.down = open,
            Direction::Left => self.left = open,
            Direction::Right => self.right = open,
        }
    }
}

impl Room {
    /// A basic room at `position` with all four doors open and no item.
    pub fn new(position: (i32, i32)) -> (r: Room)
        ensures
            r.position == position,
            r.doors == all_open(),
            r.room_type == RoomType::Basic,
            r.item.is_none(),
    {
        Room {
            doors: Doors { up: true, down: true, left: true, right: true },
            position,
            room_type: RoomType::Basic,
            item: None,
        }
    }

    pub fn tile(&self, tile: (i32, i32)) -> (r: Tile)
        requires
            in_room(tile.0 as int, tile.1 as int),
        ensures
            r.x == tile.0,
            r.y == tile.1,
            r.tile_type == layout_tile(self.room_type, tile.0 as int, tile.1 as int),
    {
        self.room_type.tile(tile)
    }

    /// A wall tile, or a door tile whose door is closed.
    pub fn is_wall(&self, position: (i32, i32)) -> (r: bool)
        requires
            in_room(position.0 as int, position.1 as int),
        ensures
            r == wall_at(*self, position.0 as int, position.1 as int),
    {
        match self.tile(position).tile_type {
            TileType::Wall(_) => true,
            TileType::Door(direction) => !self.doors.open(direction),
            _ => false,
        }
    }

    /// A door tile whose door is open.
    pub fn is_door(&self, position: (i32, i32)) -> (r: bool)
        requires
            in_room(position.0 as int, position.1 as int),
        ensures
            r == door_at(*self, position.0 as int, position.1 as int),
    {
        match self.tile(position).tile_type {
            TileType::Door(direction) => self.doors.open(direction),
            _ => false,
        }
    }
}

/// A tile is never both a wall and an open door, and every door tile is one
/// of the two.
pub proof fn lemma_wall_door_partition(room: Room, x: int, y: int)
    ensures
        !(wall_at(room, x, y) && door_at(room, x, y)),
        layout_tile(room.room_type, x, y) is Door ==> (wall_at(room, x, y) || door_at(room, x, y)),
{
}

} // verus!
