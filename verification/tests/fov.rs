//! Tests of the shadowcasting field of view.

use rogue::fov::{compute, Col, Octant, Rel, Slope, _compute_simple};
use rogue::points::{Point, Rect};
use rogue::world::RectGrid;

fn open_grid(x: u16, y: u16, endx: u16, endy: u16) -> RectGrid {
    RectGrid { area: Rect::new_exact(x, y, endx, endy), pillars: Vec::new() }
}

#[test]
fn octant_transform() {
    let origin = Point { x: 10, y: 5 };
    let rel = Rel { x: 4, y: 2 };

    let octs = Octant::iter_from(origin);
    let mut points = octs.iter().map(|oct| oct.absolute(rel).unwrap());

    assert_eq!(Some(Point { x: 6, y: 3 }), points.next());
    assert_eq!(Some(Point { x: 6, y: 7 }), points.next());
    assert_eq!(Some(Point { x: 14, y: 3 }), points.next());
    assert_eq!(Some(Point { x: 14, y: 7 }), points.next());
    assert_eq!(Some(Point { x: 8, y: 1 }), points.next());
    assert_eq!(Some(Point { x: 12, y: 1 }), points.next());
    assert_eq!(Some(Point { x: 8, y: 9 }), points.next());
    assert_eq!(Some(Point { x: 12, y: 9 }), points.next());
    assert_eq!(None, points.next());
}

#[test]
fn rows() {
    let row = Col {
        depth: 1,
        bottom_slope: Slope { num: 0, den: 1 },
        top_slope: Slope { num: 1, den: 1 },
    };
    let mut tiles = row.points().into_iter();
    assert_eq!(Some(Rel { x: 1, y: 0 }), tiles.next());
    assert_eq!(Some(Rel { x: 1, y: 1 }), tiles.next());
    assert_eq!(None, tiles.next());

    let row = row.next();
    let mut tiles = row.points().into_iter();
    assert_eq!(Some(Rel { x: 2, y: 0 }), tiles.next());
    assert_eq!(Some(Rel { x: 2, y: 1 }), tiles.next());
    assert_eq!(Some(Rel { x: 2, y: 2 }), tiles.next());
    assert_eq!(None, tiles.next());

    let row2 = Col { top_slope: Slope { num: 6, den: 10 }, ..row };
    let mut tiles = row2.points().into_iter();
    assert_eq!(Some(Rel { x: 2, y: 0 }), tiles.next());
    assert_eq!(Some(Rel { x: 2, y: 1 }), tiles.next());
    assert_eq!(None, tiles.next());

    // 4/10 * 2 = 0.8 lies within half a tile of row 1, so the row stays.
    let row2 = Col { top_slope: Slope { num: 4, den: 10 }, ..row };
    let mut tiles = row2.points().into_iter();
    assert_eq!(Some(Rel { x: 2, y: 0 }), tiles.next());
    assert_eq!(Some(Rel { x: 2, y: 1 }), tiles.next());
    assert_eq!(None, tiles.next());

    let row2 = Col { bottom_slope: Slope { num: 4, den: 10 }, ..row };
    let mut tiles = row2.points().into_iter();
    assert_eq!(Some(Rel { x: 2, y: 1 }), tiles.next());
    assert_eq!(Some(Rel { x: 2, y: 2 }), tiles.next());
    assert_eq!(None, tiles.next());

    // 6/10 * 2 = 1.2 lies within half a tile of row 1, so the row stays.
    let row2 = Col { bottom_slope: Slope { num: 6, den: 10 }, ..row };
    let mut tiles = row2.points().into_iter();
    assert_eq!(Some(Rel { x: 2, y: 1 }), tiles.next());
    assert_eq!(Some(Rel { x: 2, y: 2 }), tiles.next());
    assert_eq!(None, tiles.next());
}

#[test]
fn origin_reported_first() {
    let grid = open_grid(2, 2, 8, 7);
    let marks = compute(Point { x: 4, y: 4 }, &grid);
    assert_eq!(marks[0], Point { x: 4, y: 4 });

    // Even from a corner of the grid, with no floor anywhere.
    let bare = open_grid(0, 0, 0, 0);
    let marks = compute(Point { x: 0, y: 0 }, &bare);
    assert_eq!(marks[0], Point { x: 0, y: 0 });
}

#[test]
fn open_room_fully_visible() {
    let grid = open_grid(2, 2, 8, 7);
    let marks = compute(Point { x: 4, y: 4 }, &grid);
    for x in 2..8u16 {
        for y in 2..7u16 {
            assert!(marks.contains(&Point { x, y }), "tile ({}, {}) not marked", x, y);
        }
    }
}

#[test]
fn single_wall_occludes_ray() {
    // A pillar right of the origin hides the floor tiles behind it on the
    // same row, while the pillar itself is reported.
    let grid = RectGrid {
        area: Rect::new_exact(2, 1, 10, 8),
        pillars: vec![Point { x: 3, y: 4 }],
    };
    let marks = compute(Point { x: 2, y: 4 }, &grid);
    assert!(marks.contains(&Point { x: 3, y: 4 }));
    for x in 4..10u16 {
        assert!(!marks.contains(&Point { x, y: 4 }), "tile ({}, 4) behind the pillar", x);
    }
    // Off the blocked ray the room stays visible.
    assert!(marks.contains(&Point { x: 4, y: 3 }));
    assert!(marks.contains(&Point { x: 4, y: 5 }));
}

#[test]
fn recomputing_changes_nothing() {
    let grid = RectGrid {
        area: Rect::new_exact(2, 1, 10, 8),
        pillars: vec![Point { x: 5, y: 4 }, Point { x: 4, y: 6 }],
    };
    let first = compute(Point { x: 3, y: 4 }, &grid);
    let second = compute(Point { x: 3, y: 4 }, &grid);
    assert_eq!(first, second);
}

#[test]
fn symmetric_map_gives_symmetric_sight() {
    // The map is symmetric under point reflection through the origin, so
    // visibility is too.
    let grid = RectGrid {
        area: Rect::new_exact(5, 5, 16, 16),
        pillars: vec![Point { x: 12, y: 10 }, Point { x: 8, y: 10 }],
    };
    let origin = Point { x: 10, y: 10 };
    let marks = compute(origin, &grid);
    for p in &marks {
        let mirrored = Point { x: 2 * origin.x - p.x, y: 2 * origin.y - p.y };
        assert!(marks.contains(&mirrored), "({}, {}) seen, its mirror not", p.x, p.y);
    }
}

#[test]
fn simple_sight_is_origin_and_neighbours() {
    let marks = _compute_simple(Point { x: 5, y: 5 });
    assert_eq!(marks.len(), 9);
    assert_eq!(marks[0], Point { x: 5, y: 5 });
    for x in 4..=6u16 {
        for y in 4..=6u16 {
            assert!(marks.contains(&Point { x, y }));
        }
    }
}

#[test]
fn walls_behind_open_floor_are_reported() {
    // The ring of wall tiles right around an open room is drawn too.
    let grid = open_grid(4, 4, 7, 7);
    let marks = compute(Point { x: 5, y: 5 }, &grid);
    assert!(marks.contains(&Point { x: 3, y: 5 }));
    assert!(marks.contains(&Point { x: 7, y: 5 }));
    assert!(marks.contains(&Point { x: 5, y: 3 }));
    assert!(marks.contains(&Point { x: 5, y: 7 }));
    assert!(marks.contains(&Point { x: 3, y: 3 }));
    assert!(marks.contains(&Point { x: 7, y: 7 }));
}

#[test]
fn diagonal_wall_occludes_its_ray() {
    let grid = RectGrid {
        area: Rect::new_exact(2, 2, 12, 12),
        pillars: vec![Point { x: 6, y: 6 }],
    };
    let marks = compute(Point { x: 5, y: 5 }, &grid);
    assert!(marks.contains(&Point { x: 6, y: 6 }));
    for k in 2..7u16 {
        assert!(
            !marks.contains(&Point { x: 5 + k, y: 5 + k }),
            "diagonal tile behind the pillar seen at offset {}",
            k
        );
    }
    // Off the diagonal the room stays visible.
    assert!(marks.contains(&Point { x: 7, y: 6 }));
    assert!(marks.contains(&Point { x: 6, y: 7 }));
}
