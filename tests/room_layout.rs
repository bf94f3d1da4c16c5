use lycan::room::{Doors, Item, Room, RoomType, TileType, WallType};
use lycan::utils::Direction;

#[test]
fn direction_names() {
    assert_eq!(Direction::Down.to_string(), "Down");
    assert_eq!(Direction::Up.to_string(), "Up");
    assert_eq!(Direction::Left.to_string(), "Left");
    assert_eq!(Direction::Right.to_string(), "Right");
}

#[test]
fn new_room_has_all_doors_open_and_no_item() {
    let room = Room::new((3, -2));
    assert_eq!(room.position, (3, -2));
    assert!(room.doors.up && room.doors.down && room.doors.left && room.doors.right);
    assert_eq!(room.room_type, RoomType::Basic);
    assert!(room.item.is_none());
}

#[test]
fn basic_layout_tiles() {
    let t = RoomType::Basic;
    // top row: corridor towards the upper door
    assert_eq!(t.tile((0, 15)).tile_type, TileType::Empty);
    assert_eq!(t.tile((5, 15)).tile_type, TileType::Wall(WallType::West));
    assert_eq!(t.tile((7, 15)).tile_type, TileType::Door(Direction::Up));
    assert_eq!(t.tile((10, 15)).tile_type, TileType::Wall(WallType::East));
    // bottom row
    assert_eq!(t.tile((6, 0)).tile_type, TileType::Door(Direction::Down));
    assert_eq!(t.tile((12, 0)).tile_type, TileType::Empty);
    // side doors
    assert_eq!(t.tile((0, 7)).tile_type, TileType::Door(Direction::Left));
    assert_eq!(t.tile((15, 8)).tile_type, TileType::Door(Direction::Right));
    // corners of the hall
    assert_eq!(t.tile((1, 14)).tile_type, TileType::Wall(WallType::InnerNorthWest));
    assert_eq!(t.tile((14, 14)).tile_type, TileType::Wall(WallType::InnerNorthEast));
    assert_eq!(t.tile((1, 1)).tile_type, TileType::Wall(WallType::InnerSouthWest));
    assert_eq!(t.tile((14, 1)).tile_type, TileType::Wall(WallType::InnerSouthEast));
    assert_eq!(t.tile((3, 14)).tile_type, TileType::Wall(WallType::North));
    assert_eq!(t.tile((5, 14)).tile_type, TileType::Wall(WallType::OuterNorthWest));
    assert_eq!(t.tile((10, 1)).tile_type, TileType::Wall(WallType::OuterSouthEast));
    assert_eq!(t.tile((0, 10)).tile_type, TileType::Wall(WallType::North));
    assert_eq!(t.tile((1, 10)).tile_type, TileType::Wall(WallType::OuterNorthWest));
    assert_eq!(t.tile((15, 5)).tile_type, TileType::Wall(WallType::South));
    assert_eq!(t.tile((1, 12)).tile_type, TileType::Wall(WallType::West));
    assert_eq!(t.tile((14, 3)).tile_type, TileType::Wall(WallType::East));
    assert_eq!(t.tile((0, 12)).tile_type, TileType::Empty);
    // floor
    assert_eq!(t.tile((7, 7)).tile_type, TileType::Floor);
    assert_eq!(t.tile((2, 2)).tile_type, TileType::Floor);
    assert_eq!(t.tile((8, 14)).tile_type, TileType::Floor);
    let tile = t.tile((4, 9));
    assert_eq!((tile.x, tile.y), (4, 9));
}

#[test]
fn room_tile_ignores_doors() {
    let mut room = Room::new((0, 0));
    room.doors.up = false;
    assert_eq!(room.tile((7, 15)).tile_type, TileType::Door(Direction::Up));
}

#[test]
fn walls_and_doors_follow_door_flags() {
    let mut room = Room::new((0, 0));
    assert!(room.is_door((7, 15)));
    assert!(!room.is_wall((7, 15)));
    room.doors.up = false;
    assert!(!room.is_door((7, 15)));
    assert!(room.is_wall((7, 15)));
    // other doors are unaffected
    assert!(room.is_door((0, 6)));
    assert!(room.is_door((15, 9)));
    assert!(room.is_door((9, 0)));
    // plain walls and floor
    assert!(room.is_wall((1, 12)));
    assert!(!room.is_door((1, 12)));
    assert!(!room.is_wall((7, 7)));
    assert!(!room.is_door((7, 7)));
    assert!(!room.is_wall((0, 0)));
}

#[test]
fn door_flags_by_direction() {
    let mut doors = Doors { up: true, down: true, left: true, right: true };
    doors.set(Direction::Left, false);
    assert!(!doors.open(Direction::Left));
    assert!(doors.open(Direction::Right));
    assert!(doors.open(Direction::Up));
    assert!(doors.open(Direction::Down));
}

#[test]
fn items_compare() {
    assert_eq!(Item::Key, Item::Key);
    assert_ne!(Item::Key, Item::Bad);
}
