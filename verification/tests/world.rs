//! Tests of tile classification over a map of areas.

use rogue::fov::Grid;
use rogue::points::{Coord, Point};
use rogue::world::{area_containing, door, hall, room, Dir, MapElem, ObjKind, TileKind, WorldMap};

fn small_map() -> WorldMap {
    WorldMap {
        elems: vec![
            room(10, 4, 5, 3),
            door(15, 5),
            hall(16, 5, Coord::X(2)),
        ],
    }
}

#[test]
fn tiles_classify_by_first_area() {
    let map = small_map();
    assert_eq!(map.contains_tile(Point { x: 10, y: 4 }), Some(TileKind::Room));
    assert_eq!(map.contains_tile(Point { x: 14, y: 6 }), Some(TileKind::Room));
    assert_eq!(map.contains_tile(Point { x: 15, y: 5 }), Some(TileKind::Door));
    assert_eq!(
        map.contains_tile(Point { x: 16, y: 5 }),
        Some(TileKind::Hall(Dir::Hor))
    );
    assert_eq!(map.contains_tile(Point { x: 9, y: 4 }), None);
    assert_eq!(map.contains_tile(Point { x: 15, y: 4 }), None);
}

#[test]
fn sight_passes_floor_only() {
    let map = small_map();
    assert!(map.is_floor(Point { x: 12, y: 5 }));
    assert!(map.is_floor(Point { x: 17, y: 5 }));
    // A door fills its tile: sight does not pass it.
    assert!(!map.is_floor(Point { x: 15, y: 5 }));
    assert!(!map.is_floor(Point { x: 9, y: 5 }));
    assert!(!map.is_floor(Point { x: 18, y: 5 }));
}

#[test]
fn clear_kinds() {
    assert!(TileKind::Room.is_clear());
    assert!(TileKind::Hall(Dir::Ver).is_clear());
    assert!(!TileKind::Door.is_clear());
    assert!(!TileKind::Wall(Dir::Hor).is_clear());
}

#[test]
fn void_holds_nothing() {
    let map = WorldMap { elems: vec![MapElem::Void, door(3, 3)] };
    assert_eq!(map.contains_tile(Point { x: 3, y: 3 }), Some(TileKind::Door));
    assert_eq!(map.contains_tile(Point { x: 0, y: 0 }), None);
}

#[test]
fn walls_ring_a_room() {
    let map = small_map();
    // The room spans (10, 4) to (15, 7) exclusive; its perimeter is one
    // tile outside that.
    assert_eq!(map.wall_at(Point { x: 9, y: 3 }), Some(Dir::UL));
    assert_eq!(map.wall_at(Point { x: 15, y: 3 }), Some(Dir::UR));
    assert_eq!(map.wall_at(Point { x: 9, y: 7 }), Some(Dir::DL));
    assert_eq!(map.wall_at(Point { x: 15, y: 7 }), Some(Dir::DR));
    assert_eq!(map.wall_at(Point { x: 12, y: 3 }), Some(Dir::Hor));
    assert_eq!(map.wall_at(Point { x: 12, y: 7 }), Some(Dir::Hor));
    assert_eq!(map.wall_at(Point { x: 9, y: 5 }), Some(Dir::Ver));
    assert_eq!(map.wall_at(Point { x: 15, y: 5 }), Some(Dir::Ver));
    assert_eq!(map.wall_at(Point { x: 12, y: 5 }), None);
    assert_eq!(map.wall_at(Point { x: 0, y: 0 }), None);
}

#[test]
fn tiles_before_walls() {
    let map = small_map();
    assert_eq!(map.get_tile(Point { x: 12, y: 5 }), Some(TileKind::Room));
    assert_eq!(map.get_tile(Point { x: 12, y: 3 }), Some(TileKind::Wall(Dir::Hor)));
    // The door sits on the room's perimeter: the floor kind wins.
    assert_eq!(map.get_tile(Point { x: 15, y: 5 }), Some(TileKind::Door));
    assert_eq!(map.get_tile(Point { x: 0, y: 0 }), None);
}

#[test]
fn visible_tiles_carry_kinds_and_player() {
    let map = small_map();
    let origin = Point { x: 12, y: 5 };
    let tiles = map.visible_tiles(origin);

    // The player stands on the origin; each position appears once.
    assert!(tiles.contains(&(origin, TileKind::Obj(ObjKind::Player))));
    for (i, (p, _)) in tiles.iter().enumerate() {
        for (q, _) in tiles.iter().skip(i + 1) {
            assert_ne!(p, q);
        }
    }
    // The room and the walls around it are seen with their kinds.
    assert!(tiles.contains(&(Point { x: 10, y: 4 }, TileKind::Room)));
    assert!(tiles.contains(&(Point { x: 12, y: 3 }, TileKind::Wall(Dir::Hor))));
    assert!(tiles.contains(&(Point { x: 9, y: 5 }, TileKind::Wall(Dir::Ver))));
    // The hall floor behind the closed door is not seen.
    assert!(!tiles.iter().any(|(p, _)| *p == Point { x: 17, y: 5 }));
}

#[test]
fn first_listed_area_wins() {
    let map = small_map();
    let all: Vec<usize> = vec![0, 1, 2];
    assert_eq!(area_containing(&map, &all, Point { x: 12, y: 5 }), Some(0));
    assert_eq!(area_containing(&map, &all, Point { x: 15, y: 5 }), Some(1));
    assert_eq!(area_containing(&map, &all, Point { x: 17, y: 5 }), Some(2));
    assert_eq!(area_containing(&map, &all, Point { x: 0, y: 0 }), None);
    let some: Vec<usize> = vec![2, 9];
    assert_eq!(area_containing(&map, &some, Point { x: 15, y: 5 }), None);
}
