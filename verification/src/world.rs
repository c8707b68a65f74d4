//! Tile classification for a grid world of rooms, halls and doors.
//!
//! A map is a list of floor areas; the shell around the library keeps the
//! connections between them.  This module classifies any position into a
//! drawable tile kind — floor of some area, a wall on a room's perimeter,
//! or nothing — and implements the sight predicate of [`crate::fov::Grid`]
//! over such a map.

use vstd::prelude::*;

use crate::fov::Grid;
use crate::points::{Area, Coord, Line, Point, Rect};

verus! {

/// One element of a map: a named area of floor, or nothing.
#[derive(Clone, Copy, PartialEq, Eq, Structural, Debug, Default)]
pub enum MapElem {
    #[default]
    Void,
    Room(Rect),
    Hall(Line),
    Door(Point),
}

/// A room covering `width` by `height` tiles from `(x, y)`.
pub fn room(x: u16, y: u16, w: u16, h: u16) -> (r: MapElem)
    requires
        x + w <= u16::MAX,
        y + h <= u16::MAX,
    ensures
        r == MapElem::Room(
            Rect { pos: Point { x, y }, end: Point { x: (x + w) as u16, y: (y + h) as u16 } },
        ),
{
    MapElem::Room(Rect::new(x, y, w, h))
}

/// A hall of length `l` from `(x, y)`, on the axis that `l` names.
pub fn hall(x: u16, y: u16, l: Coord) -> (r: MapElem)
    requires
        match l {
            Coord::X(cx) => x + cx <= u16::MAX,
            Coord::Y(cy) => y + cy <= u16::MAX,
        },
    ensures
        r == match l {
            Coord::X(cx) => MapElem::Hall(
                Line { pos: Point { x, y }, end: Coord::X((x + cx) as u16) },
            ),
            Coord::Y(cy) => MapElem::Hall(
                Line { pos: Point { x, y }, end: Coord::Y((y + cy) as u16) },
            ),
        },
{
    MapElem::Hall(Line::new(x, y, l))
}

/// A single-tile door at `(x, y)`.
pub fn door(x: u16, y: u16) -> (r: MapElem)
    ensures
        r == MapElem::Door(Point { x, y }),
{
    MapElem::Door(Point { x, y })
}

impl Area for MapElem {
    open spec fn contains_spec(&self, p: Point) -> bool {
        match self {
            MapElem::Room(room) => room.contains_spec(p),
            MapElem::Hall(hall) => hall.contains_spec(p),
            MapElem::Door(d) => d.contains_spec(p),
            MapElem::Void => false,
        }
    }

    open spec fn middle_ok(&self) -> bool {
        match self {
            MapElem::Room(room) => room.middle_ok(),
            MapElem::Hall(hall) => hall.middle_ok(),
            MapElem::Door(_) => true,
            MapElem::Void => false,
        }
    }

    open spec fn middle_spec(&self) -> Point {
        match self {
            MapElem::Room(room) => room.middle_spec(),
            MapElem::Hall(hall) => hall.middle_spec(),
            MapElem::Door(d) => *d,
            MapElem::Void => Point { x: 0u16, y: 0u16 },
        }
    }

    fn contains(&self, p: Point) -> (r: bool) {
        match self {
            MapElem::Room(room) => room.contains(p),
            MapElem::Hall(hall) => hall.contains(p),
            MapElem::Door(d) => d.contains(p),
            MapElem::Void => false,
        }
    }

    fn middle(&self) -> (r: Point) {
        match self {
            MapElem::Room(room) => room.middle(),
            MapElem::Hall(hall) => hall.middle(),
            MapElem::Door(d) => *d,
            MapElem::Void => Point { x: 0, y: 0 },
        }
    }
}

/// Which way a wall tile faces, for drawing.
#[derive(Clone, Copy, PartialEq, Eq, Structural, Debug)]
pub enum Dir {
    Hor,
    Ver,
    UL,
    UR,
    DL,
    DR,
}

impl Dir {
    /// The wall direction along a coordinate's axis.
    pub open spec fn of_coord_spec(c: Coord) -> Dir {
        match c {
            Coord::X(_) => Dir::Hor,
            Coord::Y(_) => Dir::Ver,
        }
    }

    pub fn of_coord(c: Coord) -> (r: Dir)
        ensures
            r == Dir::of_coord_spec(c),
    {
        match c {
            Coord::X(_) => Dir::Hor,
            Coord::Y(_) => Dir::Ver,
        }
    }
}

/// Something standing on a tile.
#[derive(Clone, Copy, PartialEq, Eq, Structural, Debug)]
pub enum ObjKind {
    Player,
}

/// What one visible tile holds, for drawing.
#[derive(Clone, Copy, PartialEq, Eq, Structural, Debug)]
pub enum TileKind {
    Obj(ObjKind),
    Door,
    Room,
    Hall(Dir),
    Wall(Dir),
}

impl TileKind {
    /// Sight passes through the tile.
    pub open spec fn is_clear_spec(self) -> bool {
        self is Room || self is Hall || self is Obj
    }

    pub fn is_clear(&self) -> (r: bool)
        ensures
            r == self.is_clear_spec(),
    {
        match self {
            TileKind::Room => true,
            TileKind::Hall(_) => true,
            TileKind::Obj(_) => true,
            _ => false,
        }
    }
}

/// The floor kind of one map element, for a position the element holds.
pub open spec fn elem_kind(e: MapElem) -> Option<TileKind> {
    match e {
        MapElem::Room(_) => Some(TileKind::Room),
        MapElem::Hall(h) => Some(TileKind::Hall(Dir::of_coord_spec(h.end))),
        MapElem::Door(_) => Some(TileKind::Door),
        MapElem::Void => None,
    }
}

/// The areas of a game map, in insertion order.
pub struct WorldMap {
    pub elems: Vec<MapElem>,
}

/// The floor kind at `p` by the first element from index `i` on that holds
/// `p`, or nothing when none does.
pub open spec fn contains_tile_from(elems: Seq<MapElem>, p: Point, i: int) -> Option<TileKind>
    decreases elems.len() - i,
{
    if i < 0 || i >= elems.len() {
        None
    } else if elems[i].contains_spec(p) {
        elem_kind(elems[i])
    } else {
        contains_tile_from(elems, p, i + 1)
    }
}

impl WorldMap {
    /// The floor kind at `p`: the kind of the first area that holds it.
    pub open spec fn contains_tile_spec(&self, p: Point) -> Option<TileKind> {
        contains_tile_from(self.elems@, p, 0)
    }

    /// Sight passes through `p`: some area holds it and its kind is clear.
    pub open spec fn floor_spec(&self, p: Point) -> bool {
        match self.contains_tile_spec(p) {
            Some(k) => k.is_clear_spec(),
            None => false,
        }
    }

    pub fn contains_tile(&self, p: Point) -> (r: Option<TileKind>)
        ensures
            r == self.contains_tile_spec(p),
    {
        let mut i: usize = 0;
        while i < self.elems.len()
            invariant
                0 <= i <= self.elems.len(),
                contains_tile_from(self.elems@, p, 0) == contains_tile_from(
                    self.elems@,
                    p,
                    i as int,
                ),
            decreases self.elems.len() - i,
        {
            let e = &self.elems[i];
            if e.contains(p) {
                return match e {
                    MapElem::Room(_) => Some(TileKind::Room),
                    MapElem::Hall(h) => Some(TileKind::Hall(Dir::of_coord(h.end))),
                    MapElem::Door(_) => Some(TileKind::Door),
                    MapElem::Void => None,
                };
            }
            i = i + 1;
        }
        None
    }
}

impl Grid for WorldMap {
    open spec fn floor(&self, p: Point) -> bool {
        self.floor_spec(p)
    }

    fn is_floor(&self, p: Point) -> (r: bool) {
        match self.contains_tile(p) {
            Some(k) => k.is_clear(),
            None => false,
        }
    }
}

/// Where `p` stands on the one-tile perimeter around a room: a corner, a
/// horizontal run above or below, or a vertical run beside it.
pub open spec fn wall_dir(room: Rect, p: Point) -> Option<Dir> {
    let left = room.pos.x - 1;
    let top = room.pos.y - 1;
    let right = room.end.x as int;
    let bottom = room.end.y as int;
    if p.x == left && p.y == top {
        Some(Dir::UL)
    } else if p.x == right && p.y == top {
        Some(Dir::UR)
    } else if p.x == left && p.y == bottom {
        Some(Dir::DL)
    } else if p.x == right && p.y == bottom {
        Some(Dir::DR)
    } else if (p.y == top || p.y == bottom) && room.pos.x <= p.x < right {
        Some(Dir::Hor)
    } else if (p.x == left || p.x == right) && room.pos.y <= p.y < bottom {
        Some(Dir::Ver)
    } else {
        None::<Dir>
    }
}

/// Every room of the map leaves space for its perimeter: its floor starts
/// at column one and row one at the earliest.
pub open spec fn rooms_walled(elems: Seq<MapElem>) -> bool {
    forall|k: int|
        0 <= k < elems.len() ==> match #[trigger] elems[k] {
            MapElem::Room(rm) => rm.pos.x >= 1 && rm.pos.y >= 1,
            _ => true,
        }
}

/// Where `p` stands on the perimeter of a room among the first `i` map
/// elements, the perimeter of the last such room decides.
pub open spec fn wall_at_to(elems: Seq<MapElem>, p: Point, i: int) -> Option<Dir>
    decreases i,
{
    if i <= 0 || i > elems.len() {
        None::<Dir>
    } else {
        match elems[i - 1] {
            MapElem::Room(rm) => match wall_dir(rm, p) {
                Some(d) => Some(d),
                None => wall_at_to(elems, p, i - 1),
            },
            _ => wall_at_to(elems, p, i - 1),
        }
    }
}

/// Where `p` stands on a room's perimeter.
fn wall_dir_of(room: &Rect, p: Point) -> (r: Option<Dir>)
    requires
        room.pos.x >= 1,
        room.pos.y >= 1,
    ensures
        r == wall_dir(*room, p),
{
    let left = room.pos.x - 1;
    let top = room.pos.y - 1;
    let right = room.end.x;
    let bottom = room.end.y;
    if p.x == left && p.y == top {
        Some(Dir::UL)
    } else if p.x == right && p.y == top {
        Some(Dir::UR)
    } else if p.x == left && p.y == bottom {
        Some(Dir::DL)
    } else if p.x == right && p.y == bottom {
        Some(Dir::DR)
    } else if (p.y == top || p.y == bottom) && room.pos.x <= p.x && p.x < right {
        Some(Dir::Hor)
    } else if (p.x == left || p.x == right) && room.pos.y <= p.y && p.y < bottom {
        Some(Dir::Ver)
    } else {
        None
    }
}

impl WorldMap {
    /// Every room leaves space for its perimeter walls.
    pub open spec fn walls_ok(&self) -> bool {
        rooms_walled(self.elems@)
    }

    /// Where `p` stands on the perimeter wall of some room.
    pub open spec fn wall_at_spec(&self, p: Point) -> Option<Dir> {
        wall_at_to(self.elems@, p, self.elems@.len() as int)
    }

    pub fn wall_at(&self, p: Point) -> (r: Option<Dir>)
        requires
            self.walls_ok(),
        ensures
            r == self.wall_at_spec(p),
    {
        let mut i: usize = self.elems.len();
        while i > 0
            invariant
                0 <= i <= self.elems.len(),
                self.walls_ok(),
                self.wall_at_spec(p) == wall_at_to(self.elems@, p, i as int),
            decreases i,
        {
            if let MapElem::Room(rm) = &self.elems[i - 1] {
                if let Some(d) = wall_dir_of(rm, p) {
                    return Some(d);
                }
            }
            i = i - 1;
        }
        None
    }

    /// What stands at `p`: the floor of the first area that holds it, a
    /// wall of the last room whose perimeter holds it, or nothing.
    pub open spec fn get_tile_spec(&self, p: Point) -> Option<TileKind> {
        match self.contains_tile_spec(p) {
            Some(k) => Some(k),
            None => match self.wall_at_spec(p) {
                Some(d) => Some(TileKind::Wall(d)),
                None => None::<TileKind>,
            },
        }
    }

    pub fn get_tile(&self, p: Point) -> (r: Option<TileKind>)
        requires
            self.walls_ok(),
        ensures
            r == self.get_tile_spec(p),
    {
        if let Some(k) = self.contains_tile(p) {
            return Some(k);
        }
        match self.wall_at(p) {
            Some(d) => Some(TileKind::Wall(d)),
            None => None,
        }
    }
}

/// No position repeats among the keys of a tile list.
pub open spec fn keys_unique(r: Seq<(Point, TileKind)>) -> bool {
    forall|i: int, j: int| 0 <= i < j < r.len() ==> (#[trigger] r[i]).0 != (#[trigger] r[j]).0
}

/// What [`WorldMap::visible_tiles`] builds from one mark sequence: each
/// drawable marked position exactly once with its tile, and the player
/// standing on `p` whatever else is there.
pub open spec fn tile_map_post(
    map: &WorldMap,
    p: Point,
    marks: Seq<Point>,
    r: Seq<(Point, TileKind)>,
) -> bool {
    &&& keys_unique(r)
    &&& r.contains((p, TileKind::Obj(ObjKind::Player)))
    &&& forall|j: int|
        0 <= j < r.len() ==> {
            let q = (#[trigger] r[j]).0;
            let k = r[j].1;
            if q == p {
                k == TileKind::Obj(ObjKind::Player)
            } else {
                marks.contains(q) && map.get_tile_spec(q) == Some(k)
            }
        }
    &&& forall|j: int|
        0 <= j < marks.len() ==> (#[trigger] marks[j] == p || map.get_tile_spec(marks[j]) is None
            || exists|i: int| 0 <= i < r.len() && (#[trigger] r[i]).0 == marks[j])
}

/// Whether some entry of a tile list already has the key `q`.
fn contains_key(r: &Vec<(Point, TileKind)>, q: Point) -> (b: bool)
    ensures
        b == exists|j: int| 0 <= j < r@.len() && (#[trigger] r@[j]).0 == q,
{
    let mut i: usize = 0;
    while i < r.len()
        invariant
            0 <= i <= r@.len(),
            forall|j: int| 0 <= j < i ==> (#[trigger] r@[j]).0 != q,
        decreases r@.len() - i,
    {
        if r[i].0 == q {
            return true;
        }
        i = i + 1;
    }
    false
}

impl WorldMap {
    /// Everything visible from `p`, as a keyed tile list: each position the
    /// scan reports and the map can draw appears once with its tile, and
    /// the player stands on `p`.
    pub fn visible_tiles(&self, p: Point) -> (r: Vec<(Point, TileKind)>)
        requires
            self.walls_ok(),
        ensures
            exists|marks: Seq<Point>|
                #[trigger] crate::fov::compute_post(crate::fov::grid_floor(self), p, marks)
                    && tile_map_post(self, p, marks, r@),
    {
        let marks = crate::fov::compute(p, self);
        let mut r: Vec<(Point, TileKind)> = Vec::new();
        let mut i: usize = 0;
        while i < marks.len()
            invariant
                self.walls_ok(),
                keys_unique(r@),
                forall|j: int| 0 <= j < r@.len() ==> (#[trigger] r@[j]).0 != p,
                forall|j: int|
                    0 <= j < r@.len() ==> marks@.contains((#[trigger] r@[j]).0)
                        && self.get_tile_spec(r@[j].0) == Some(r@[j].1),
                forall|m: int|
                    0 <= m < i ==> (#[trigger] marks@[m] == p || self.get_tile_spec(marks@[m])
                        is None || exists|j: int|
                        0 <= j < r@.len() && (#[trigger] r@[j]).0 == marks@[m]),
            decreases marks@.len() - i,
        {
            let q = marks[i];
            if !(q == p) {
                if !contains_key(&r, q) {
                    match self.get_tile(q) {
                        Some(k) => {
                            let ghost r_old = r@;
                            r.push((q, k));
                            proof {
                                assert(marks@.contains(q)) by {
                                    assert(marks@[i as int] == q);
                                }
                                assert(forall|j: int|
                                    0 <= j < r_old.len() ==> r@[j] == r_old[j]);
                                assert(r@[r@.len() - 1].0 == q);
                                assert forall|m: int|
                                    0 <= m < i + 1 implies (#[trigger] marks@[m] == p
                                    || self.get_tile_spec(marks@[m]) is None || exists|j: int|
                                    0 <= j < r@.len() && (#[trigger] r@[j]).0
                                        == marks@[m]) by {
                                    if m < i && marks@[m] != p && !(self.get_tile_spec(
                                        marks@[m],
                                    ) is None) {
                                        let j = choose|j: int|
                                            0 <= j < r_old.len() && (#[trigger] r_old[j]).0
                                                == marks@[m];
                                        assert(r@[j].0 == marks@[m]);
                                    }
                                    if m == i {
                                        assert(r@[r@.len() - 1].0 == marks@[m]);
                                    }
                                }
                            }
                        },
                        None => {},
                    }
                }
            }
            i = i + 1;
        }
        let ghost r_old = r@;
        r.push((p, TileKind::Obj(ObjKind::Player)));
        proof {
            assert(forall|j: int| 0 <= j < r_old.len() ==> r@[j] == r_old[j]);
            assert(r@.contains((p, TileKind::Obj(ObjKind::Player)))) by {
                assert(r@[r@.len() - 1] == (p, TileKind::Obj(ObjKind::Player)));
            }
            assert(tile_map_post(self, p, marks@, r@));
        }
        r
    }
}

/// The index of the first of the listed areas that holds `p`, from `i` on.
pub open spec fn area_containing_from(
    elems: Seq<MapElem>,
    idxs: Seq<usize>,
    p: Point,
    i: int,
) -> Option<usize>
    decreases idxs.len() - i,
{
    if i < 0 || i >= idxs.len() {
        None
    } else if idxs[i] < elems.len() && elems[idxs[i] as int].contains_spec(p) {
        Some(idxs[i])
    } else {
        area_containing_from(elems, idxs, p, i + 1)
    }
}

/// Which of the listed areas holds `p`: the first index in `idxs` whose
/// element contains the position.  An index off the list of areas holds
/// nothing.
pub fn area_containing(map: &WorldMap, idxs: &Vec<usize>, p: Point) -> (r: Option<usize>)
    ensures
        r == area_containing_from(map.elems@, idxs@, p, 0),
{
    let mut i: usize = 0;
    while i < idxs.len()
        invariant
            0 <= i <= idxs.len(),
            area_containing_from(map.elems@, idxs@, p, 0) == area_containing_from(
                map.elems@,
                idxs@,
                p,
                i as int,
            ),
        decreases idxs.len() - i,
    {
        let j = idxs[i];
        if j < map.elems.len() {
            let e = &map.elems[j];
            if e.contains(p) {
                return Some(j);
            }
        }
        i = i + 1;
    }
    None
}

/// A rectangle of open floor with a list of opaque pillar tiles in it: the
/// simplest map with walls standing free, handy for trying sight lines.
pub struct RectGrid {
    pub area: Rect,
    pub pillars: Vec<Point>,
}

impl Grid for RectGrid {
    /// Floor is the rectangle, the pillar tiles taken out.
    open spec fn floor(&self, p: Point) -> bool {
        self.area.contains_spec(p) && !self.pillars@.contains(p)
    }

    fn is_floor(&self, p: Point) -> (r: bool) {
        if !self.area.contains(p) {
            return false;
        }
        let mut i: usize = 0;
        while i < self.pillars.len()
            invariant
                0 <= i <= self.pillars.len(),
                forall|j: int| 0 <= j < i ==> self.pillars@[j] != p,
            decreases self.pillars.len() - i,
        {
            if self.pillars[i] == p {
                return false;
            }
            i = i + 1;
        }
        proof {
            assert(!self.pillars@.contains(p));
        }
        true
    }
}

} // verus!
