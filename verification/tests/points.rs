//! Tests of the grid geometry.

use rogue::points::{average, Area, Coord, Line, Move, Point, Points, Rect};

#[test]
fn rect_building_and_size() {
    let r = Rect::new(10, 4, 5, 3);
    assert_eq!(r.pos, Point { x: 10, y: 4 });
    assert_eq!(r.end, Point { x: 15, y: 7 });
    assert_eq!(r.size(), Point { x: 5, y: 3 });
    assert_eq!(r.width(), 5);
    assert_eq!(r.height(), 3);

    let r = r.pos_x(11).end_y(9);
    assert_eq!(r, Rect::new_exact(11, 4, 15, 9));
}

#[test]
fn line_building_and_len() {
    let h = Line::new(18, 5, Coord::Y(8));
    assert_eq!(h.pos, Point { x: 18, y: 5 });
    assert_eq!(h.end, Coord::Y(13));
    assert_eq!(h.len(), 8);

    let v = Line::new_exact(3, 2, Coord::X(9));
    assert_eq!(v.len(), 6);
}

#[test]
fn position_contains_only_itself() {
    let p = Point { x: 5, y: 5 };
    assert!(p.contains(Point { x: 5, y: 5 }));
    assert!(!p.contains(Point { x: 5, y: 4 }));
    assert!(!p.contains(Point { x: 3, y: 5 }));
    assert!(!p.contains(Point { x: 6, y: 5 }));
    assert_eq!(p.middle(), p);
}

#[test]
fn space_contains_and_middle() {
    let room = Rect::new(5, 10, 11, 4);
    assert!(room.contains(Point { x: 5, y: 10 }));
    assert!(room.contains(Point { x: 15, y: 13 }));
    assert!(!room.contains(Point { x: 16, y: 13 }));
    assert!(!room.contains(Point { x: 15, y: 14 }));
    assert!(!room.contains(Point { x: 4, y: 10 }));
    assert_eq!(room.middle(), Point { x: 10, y: 12 });
    assert_eq!(average(5, 16), 10);
}

#[test]
fn straight_contains_and_middle() {
    let hall = Line::new(18, 5, Coord::Y(8));
    assert!(hall.contains(Point { x: 18, y: 5 }));
    assert!(hall.contains(Point { x: 18, y: 12 }));
    assert!(!hall.contains(Point { x: 18, y: 13 }));
    assert!(!hall.contains(Point { x: 17, y: 5 }));
    assert_eq!(hall.middle(), Point { x: 18, y: 9 });
}

#[test]
fn moves_reach_all_neighbours() {
    let p = Point { x: 5, y: 5 };
    assert_eq!(Move::Up.step(p), Point { x: 5, y: 4 });
    assert_eq!(Move::Down.step(p), Point { x: 5, y: 6 });
    assert_eq!(Move::Left.step(p), Point { x: 4, y: 5 });
    assert_eq!(Move::Right.step(p), Point { x: 6, y: 5 });
    assert_eq!(Move::LU.step(p), Point { x: 4, y: 4 });
    assert_eq!(Move::LD.step(p), Point { x: 4, y: 6 });
    assert_eq!(Move::RU.step(p), Point { x: 6, y: 4 });
    assert_eq!(Move::RD.step(p), Point { x: 6, y: 6 });
    assert_eq!(Move::iter().len(), 8);
}

#[test]
fn point_arithmetic() {
    let p = Point { x: 3, y: 4 };
    assert_eq!(p.add(Point { x: 1, y: 2 }), Point { x: 4, y: 6 });
    assert_eq!(p.sub(Point { x: 1, y: 2 }), Point { x: 2, y: 2 });
    assert_eq!(p.add_coord(Coord::X(5)), Point { x: 8, y: 4 });
    assert_eq!(p.sub_coord(Coord::Y(4)), Point { x: 3, y: 0 });
    assert_eq!(p.mul(3), Point { x: 9, y: 12 });
    assert_eq!(p.div(2), Point { x: 1, y: 2 });
    assert_eq!(p.add_move(Move::RD), Point { x: 4, y: 5 });

    let mut q = Point { x: 7, y: 7 };
    q.add_assign(Point { x: 1, y: 1 });
    assert_eq!(q, Point { x: 8, y: 8 });
    q.sub_coord_assign(Coord::X(8));
    assert_eq!(q, Point { x: 0, y: 8 });
}

#[test]
fn coord_arithmetic() {
    assert_eq!(Coord::X(4).add(3), Coord::X(7));
    assert_eq!(Coord::Y(4).sub(3), Coord::Y(1));
    assert_eq!(Coord::X(4).mul(3), Coord::X(12));
    assert_eq!(Coord::Y(9).div(2), Coord::Y(4));

    let mut c = Coord::Y(2);
    c.add_assign(5);
    assert_eq!(c, Coord::Y(7));
}

#[test]
fn strips_walk_a_rect() {
    let room = Rect::new_exact(2, 3, 4, 5);
    let mut rows = room.strips();
    let mut seen = Vec::new();
    while let Some(mut strip) = rows.next() {
        while let Some(p) = strip.next() {
            seen.push(p);
        }
    }
    assert_eq!(
        seen,
        vec![
            Point { x: 2, y: 3 },
            Point { x: 3, y: 3 },
            Point { x: 2, y: 4 },
            Point { x: 3, y: 4 },
        ]
    );
}

#[test]
fn points_walk_a_rect() {
    let room = Rect::new_exact(2, 3, 4, 5);
    let mut it = room.points();
    let mut seen = Vec::new();
    while let Some(p) = it.next() {
        seen.push(p);
    }
    assert_eq!(
        seen,
        vec![
            Point { x: 2, y: 3 },
            Point { x: 3, y: 3 },
            Point { x: 2, y: 4 },
            Point { x: 3, y: 4 },
        ]
    );
}

#[test]
fn points_walk_a_line() {
    let hall = Line::new_exact(2, 3, Coord::Y(6));
    let mut it = hall.points();
    let mut seen = Vec::new();
    while let Some(p) = it.next() {
        seen.push(p);
    }
    assert_eq!(
        seen,
        vec![Point { x: 2, y: 3 }, Point { x: 2, y: 4 }, Point { x: 2, y: 5 }]
    );
}

#[test]
fn strips_walk_a_line() {
    let hall = Line::new_exact(2, 3, Coord::X(5));
    let mut it = hall.strips();
    let mut strip = it.next().unwrap();
    assert!(it.next().is_none());
    let mut seen = Vec::new();
    while let Some(p) = strip.next() {
        seen.push(p);
    }
    assert_eq!(
        seen,
        vec![Point { x: 2, y: 3 }, Point { x: 3, y: 3 }, Point { x: 4, y: 3 }]
    );
}

#[test]
fn a_position_is_one_strip() {
    let p = Point { x: 6, y: 2 };
    let mut it = p.strips();
    let mut strip = it.next().unwrap();
    assert!(it.next().is_none());
    assert_eq!(strip.next(), Some(p));
    assert_eq!(strip.next(), None);
}

#[test]
fn a_mover_applies_its_move() {
    let f = Move::RD.mover();
    assert_eq!(f(Point { x: 3, y: 4 }), Point { x: 4, y: 5 });
    assert_eq!(f(Point { x: 0, y: 0 }), Point { x: 1, y: 1 });
}
