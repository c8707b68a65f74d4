//! Points, rectangles and lines on an unsigned 2D tile grid.
//!
//! All coordinates are `u16`; every arithmetic operation states in its
//! contract the bounds that keep it from wrapping.

use vstd::prelude::*;

verus! {

/// A grid position: `x` grows to the right, `y` grows downward.
#[derive(Clone, Copy, PartialEq, Eq, Structural, Hash, Debug)]
pub struct Point {
    pub x: u16,
    pub y: u16,
}

/// A single axis-aligned coordinate: either an `x` or a `y` value.
#[derive(Clone, Copy, PartialEq, Eq, Structural, Debug)]
pub enum Coord {
    X(u16),
    Y(u16),
}

/// An axis-aligned rectangle, from `pos` (inclusive) to `end` (exclusive).
#[derive(Clone, Copy, PartialEq, Eq, Structural, Debug)]
pub struct Rect {
    pub pos: Point,
    pub end: Point,
}

/// A horizontal or vertical run of tiles, from `pos` (inclusive) to `end`
/// (exclusive, on the axis that `end` names).
#[derive(Clone, Copy, PartialEq, Eq, Structural, Debug)]
pub struct Line {
    pub pos: Point,
    pub end: Coord,
}

/// An occupied region of the grid.
pub type Space = Rect;
/// An occupied straight run of the grid.
pub type Straight = Line;
/// An absolute position on the grid.
pub type Position = Point;
/// An absolute single-axis coordinate.
pub type Coordinate = Coord;

// Properties

impl Rect {
    /// The rectangle does not extend backwards on either axis.
    pub open spec fn wf(self) -> bool {
        self.pos.x <= self.end.x && self.pos.y <= self.end.y
    }

    pub fn size(&self) -> (r: Point)
        requires
            self.wf(),
        ensures
            r.x == self.end.x - self.pos.x,
            r.y == self.end.y - self.pos.y,
    {
        Point { x: self.end.x - self.pos.x, y: self.end.y - self.pos.y }
    }

    pub fn width(&self) -> (r: u16)
        requires
            self.pos.x <= self.end.x,
        ensures
            r == self.end.x - self.pos.x,
    {
        self.end.x - self.pos.x
    }

    pub fn height(&self) -> (r: u16)
        requires
            self.pos.y <= self.end.y,
        ensures
            r == self.end.y - self.pos.y,
    {
        self.end.y - self.pos.y
    }
}

impl Line {
    /// The run does not extend backwards on its axis.
    pub open spec fn wf(self) -> bool {
        match self.end {
            Coord::X(end) => self.pos.x <= end,
            Coord::Y(end) => self.pos.y <= end,
        }
    }

    pub fn len(&self) -> (r: u16)
        requires
            self.wf(),
        ensures
            r == match self.end {
                Coord::X(end) => end - self.pos.x,
                Coord::Y(end) => end - self.pos.y,
            },
    {
        match self.end {
            Coord::X(end) => end - self.pos.x,
            Coord::Y(end) => end - self.pos.y,
        }
    }
}

// Creating new instances from existing instances

impl Point {
    pub fn x(self, x: u16) -> (r: Self)
        ensures
            r == (Point { x, ..self }),
    {
        Point { x, ..self }
    }

    pub fn y(self, y: u16) -> (r: Self)
        ensures
            r == (Point { y, ..self }),
    {
        Point { y, ..self }
    }
}

impl Rect {
    pub fn pos(self, pos: Point) -> (r: Self)
        ensures
            r == (Rect { pos, ..self }),
    {
        Rect { pos, ..self }
    }

    pub fn end(self, end: Point) -> (r: Self)
        ensures
            r == (Rect { end, ..self }),
    {
        Rect { end, ..self }
    }

    pub fn pos_x(self, x: u16) -> (r: Self)
        ensures
            r == (Rect { pos: Point { x, y: self.pos.y }, end: self.end }),
    {
        Rect { pos: self.pos.x(x), ..self }
    }

    pub fn pos_y(self, y: u16) -> (r: Self)
        ensures
            r == (Rect { pos: Point { x: self.pos.x, y }, end: self.end }),
    {
        Rect { pos: self.pos.y(y), ..self }
    }

    pub fn end_x(self, x: u16) -> (r: Self)
        ensures
            r == (Rect { pos: self.pos, end: Point { x, y: self.end.y } }),
    {
        Rect { end: self.end.x(x), ..self }
    }

    pub fn end_y(self, y: u16) -> (r: Self)
        ensures
            r == (Rect { pos: self.pos, end: Point { x: self.end.x, y } }),
    {
        Rect { end: self.end.y(y), ..self }
    }
}

// Creating rooms and paths

impl Rect {
    pub fn new(x: u16, y: u16, width: u16, height: u16) -> (r: Self)
        requires
            x + width <= u16::MAX,
            y + height <= u16::MAX,
        ensures
            r == (Rect {
                pos: Point { x, y },
                end: Point { x: (x + width) as u16, y: (y + height) as u16 },
            }),
    {
        Rect { pos: Point { x, y }, end: Point { x: x + width, y: y + height } }
    }

    pub fn new_exact(x: u16, y: u16, endx: u16, endy: u16) -> (r: Self)
        ensures
            r == (Rect { pos: Point { x, y }, end: Point { x: endx, y: endy } }),
    {
        Rect { pos: Point { x, y }, end: Point { x: endx, y: endy } }
    }
}

impl Line {
    pub fn new(x: u16, y: u16, length: Coord) -> (r: Self)
        requires
            match length {
                Coord::X(cx) => x + cx <= u16::MAX,
                Coord::Y(cy) => y + cy <= u16::MAX,
            },
        ensures
            r == match length {
                Coord::X(cx) => Line {
                    pos: Point { x, y },
                    end: Coord::X((x + cx) as u16),
                },
                Coord::Y(cy) => Line {
                    pos: Point { x, y },
                    end: Coord::Y((y + cy) as u16),
                },
            },
    {
        match length {
            Coord::X(cx) => Line { pos: Point { x, y }, end: Coord::X(x + cx) },
            Coord::Y(cy) => Line { pos: Point { x, y }, end: Coord::Y(y + cy) },
        }
    }

    pub fn new_exact(x: u16, y: u16, end: Coord) -> (r: Self)
        ensures
            r == (Line { pos: Point { x, y }, end }),
    {
        Line { pos: Point { x, y }, end }
    }
}

/// The midpoint of `a` and `b`, rounded down.
pub fn average(a: u16, b: u16) -> (r: u16)
    requires
        a + b <= u16::MAX,
    ensures
        r == (a + b) / 2,
{
    (a + b) / 2
}

// Moving a position by one tile

/// One step to an adjacent tile, diagonals included.
#[derive(Clone, Copy, PartialEq, Eq, Structural, Debug)]
pub enum Move {
    Up,
    Down,
    Left,
    Right,
    LU,
    LD,
    RU,
    RD,
}

impl Move {
    /// The step stays on the grid: it neither leaves 0 nor `u16::MAX` behind.
    pub open spec fn step_ok(self, p: Point) -> bool {
        match self {
            Move::Up => p.y >= 1,
            Move::Down => p.y < u16::MAX,
            Move::Left => p.x >= 1,
            Move::Right => p.x < u16::MAX,
            Move::LU => p.x >= 1 && p.y >= 1,
            Move::LD => p.x >= 1 && p.y < u16::MAX,
            Move::RU => p.x < u16::MAX && p.y >= 1,
            Move::RD => p.x < u16::MAX && p.y < u16::MAX,
        }
    }

    /// Where the step lands, as unbounded integers.
    pub open spec fn step_spec(self, p: Point) -> (int, int) {
        match self {
            Move::Up => (p.x as int, p.y - 1),
            Move::Down => (p.x as int, p.y + 1),
            Move::Left => (p.x - 1, p.y as int),
            Move::Right => (p.x + 1, p.y as int),
            Move::LU => (p.x - 1, p.y - 1),
            Move::LD => (p.x - 1, p.y + 1),
            Move::RU => (p.x + 1, p.y - 1),
            Move::RD => (p.x + 1, p.y + 1),
        }
    }

    /// Apply the step to a position.
    pub fn step(self, p: Position) -> (r: Position)
        requires
            self.step_ok(p),
        ensures
            r.x == self.step_spec(p).0,
            r.y == self.step_spec(p).1,
    {
        match self {
            Move::Up => Point { y: p.y - 1, ..p },
            Move::Down => Point { y: p.y + 1, ..p },
            Move::Left => Point { x: p.x - 1, ..p },
            Move::Right => Point { x: p.x + 1, ..p },
            Move::LU => Point { x: p.x - 1, y: p.y - 1 },
            Move::LD => Point { x: p.x - 1, y: p.y + 1 },
            Move::RU => Point { x: p.x + 1, y: p.y - 1 },
            Move::RD => Point { x: p.x + 1, y: p.y + 1 },
        }
    }

    /// A function that applies this step: it asks what the step asks and
    /// lands where the step lands.
    pub fn mover(self) -> (r: impl Fn(Position) -> Position)
        ensures
            forall|p: Position| self.step_ok(p) ==> call_requires(r, (p,)),
            forall|p: Position, q: Position|
                call_ensures(r, (p,), q) ==> q.x == self.step_spec(p).0 && q.y == self.step_spec(
                    p,
                ).1,
    {
        let m = self;
        (move |p: Position| -> (q: Position)
            requires
                m.step_ok(p),
            ensures
                q.x == m.step_spec(p).0,
                q.y == m.step_spec(p).1,
            {
                m.step(p)
            })
    }

    /// All eight steps, in a fixed enumeration order.
    pub open spec fn all_spec() -> Seq<Move> {
        seq![
            Move::Up,
            Move::Down,
            Move::Left,
            Move::Right,
            Move::LU,
            Move::LD,
            Move::RU,
            Move::RD,
        ]
    }

    /// All eight steps, in the order of [`Move::all_spec`].
    pub fn iter() -> (r: Vec<Move>)
        ensures
            r@ == Move::all_spec(),
    {
        let r: Vec<Move> = vec![
            Move::Up,
            Move::Down,
            Move::Left,
            Move::Right,
            Move::LU,
            Move::LD,
            Move::RU,
            Move::RD,
        ];
        proof {
            assert(r@ =~= Move::all_spec());
        }
        r
    }
}

// Point arithmetic

impl Point {
    pub fn add(self, other: Self) -> (r: Self)
        requires
            self.x + other.x <= u16::MAX,
            self.y + other.y <= u16::MAX,
        ensures
            r.x == self.x + other.x,
            r.y == self.y + other.y,
    {
        Self { x: self.x + other.x, y: self.y + other.y }
    }

    pub fn add_assign(&mut self, other: Self)
        requires
            old(self).x + other.x <= u16::MAX,
            old(self).y + other.y <= u16::MAX,
        ensures
            final(self).x == old(self).x + other.x,
            final(self).y == old(self).y + other.y,
    {
        *self = Self { x: self.x + other.x, y: self.y + other.y };
    }

    pub fn sub(self, other: Self) -> (r: Self)
        requires
            other.x <= self.x,
            other.y <= self.y,
        ensures
            r.x == self.x - other.x,
            r.y == self.y - other.y,
    {
        Self { x: self.x - other.x, y: self.y - other.y }
    }

    pub fn sub_assign(&mut self, other: Self)
        requires
            other.x <= old(self).x,
            other.y <= old(self).y,
        ensures
            final(self).x == old(self).x - other.x,
            final(self).y == old(self).y - other.y,
    {
        *self = Self { x: self.x - other.x, y: self.y - other.y };
    }

    /// Shift one axis forward.
    pub open spec fn add_coord_spec(self, coord: Coord) -> (int, int) {
        match coord {
            Coord::X(x) => (self.x + x, self.y as int),
            Coord::Y(y) => (self.x as int, self.y + y),
        }
    }

    pub fn add_coord(self, coord: Coord) -> (r: Self)
        requires
            self.add_coord_spec(coord).0 <= u16::MAX,
            self.add_coord_spec(coord).1 <= u16::MAX,
        ensures
            r.x == self.add_coord_spec(coord).0,
            r.y == self.add_coord_spec(coord).1,
    {
        match coord {
            Coord::X(x) => Self { x: self.x + x, ..self },
            Coord::Y(y) => Self { y: self.y + y, ..self },
        }
    }

    pub fn add_coord_assign(&mut self, coord: Coord)
        requires
            old(self).add_coord_spec(coord).0 <= u16::MAX,
            old(self).add_coord_spec(coord).1 <= u16::MAX,
        ensures
            final(self).x == old(self).add_coord_spec(coord).0,
            final(self).y == old(self).add_coord_spec(coord).1,
    {
        *self = self.add_coord(coord);
    }

    /// Shift one axis backward.
    pub open spec fn sub_coord_spec(self, coord: Coord) -> (int, int) {
        match coord {
            Coord::X(x) => (self.x - x, self.y as int),
            Coord::Y(y) => (self.x as int, self.y - y),
        }
    }

    pub fn sub_coord(self, coord: Coord) -> (r: Self)
        requires
            self.sub_coord_spec(coord).0 >= 0,
            self.sub_coord_spec(coord).1 >= 0,
        ensures
            r.x == self.sub_coord_spec(coord).0,
            r.y == self.sub_coord_spec(coord).1,
    {
        match coord {
            Coord::X(x) => Self { x: self.x - x, ..self },
            Coord::Y(y) => Self { y: self.y - y, ..self },
        }
    }

    pub fn sub_coord_assign(&mut self, coord: Coord)
        requires
            old(self).sub_coord_spec(coord).0 >= 0,
            old(self).sub_coord_spec(coord).1 >= 0,
        ensures
            final(self).x == old(self).sub_coord_spec(coord).0,
            final(self).y == old(self).sub_coord_spec(coord).1,
    {
        *self = self.sub_coord(coord);
    }

    pub fn mul(self, n: u16) -> (r: Self)
        requires
            self.x * n <= u16::MAX,
            self.y * n <= u16::MAX,
        ensures
            r.x == self.x * n,
            r.y == self.y * n,
    {
        Self { x: self.x * n, y: self.y * n }
    }

    pub fn mul_assign(&mut self, n: u16)
        requires
            old(self).x * n <= u16::MAX,
            old(self).y * n <= u16::MAX,
        ensures
            final(self).x == old(self).x * n,
            final(self).y == old(self).y * n,
    {
        *self = Self { x: self.x * n, y: self.y * n };
    }

    pub fn div(self, n: u16) -> (r: Self)
        requires
            n > 0,
        ensures
            r.x == self.x as int / n as int,
            r.y == self.y as int / n as int,
    {
        Self { x: self.x / n, y: self.y / n }
    }

    pub fn div_assign(&mut self, n: u16)
        requires
            n > 0,
        ensures
            final(self).x == old(self).x as int / n as int,
            final(self).y == old(self).y as int / n as int,
    {
        *self = Self { x: self.x / n, y: self.y / n };
    }

    /// Step to an adjacent tile.
    pub fn add_move(self, m: Move) -> (r: Self)
        requires
            m.step_ok(self),
        ensures
            r.x == m.step_spec(self).0,
            r.y == m.step_spec(self).1,
    {
        m.step(self)
    }

    pub fn add_move_assign(&mut self, m: Move)
        requires
            m.step_ok(*old(self)),
        ensures
            final(self).x == m.step_spec(*old(self)).0,
            final(self).y == m.step_spec(*old(self)).1,
    {
        *self = m.step(*self);
    }
}

// Coord arithmetic

impl Coord {
    /// The coordinate's bare value, whichever axis it names.
    pub open spec fn value(self) -> u16 {
        match self {
            Coord::X(x) => x,
            Coord::Y(y) => y,
        }
    }

    /// The axis is kept; only the value changes.
    pub open spec fn same_axis(self, other: Self) -> bool {
        match (self, other) {
            (Coord::X(_), Coord::X(_)) => true,
            (Coord::Y(_), Coord::Y(_)) => true,
            _ => false,
        }
    }

    pub fn add(self, n: u16) -> (r: Self)
        requires
            self.value() + n <= u16::MAX,
        ensures
            self.same_axis(r),
            r.value() == self.value() + n,
    {
        match self {
            Coord::X(x) => Coord::X(x + n),
            Coord::Y(y) => Coord::Y(y + n),
        }
    }

    pub fn add_assign(&mut self, n: u16)
        requires
            old(self).value() + n <= u16::MAX,
        ensures
            old(self).same_axis(*final(self)),
            final(self).value() == old(self).value() + n,
    {
        *self = self.add(n);
    }

    pub fn sub(self, n: u16) -> (r: Self)
        requires
            n <= self.value(),
        ensures
            self.same_axis(r),
            r.value() == self.value() - n,
    {
        match self {
            Coord::X(x) => Coord::X(x - n),
            Coord::Y(y) => Coord::Y(y - n),
        }
    }

    pub fn sub_assign(&mut self, n: u16)
        requires
            n <= old(self).value(),
        ensures
            old(self).same_axis(*final(self)),
            final(self).value() == old(self).value() - n,
    {
        *self = self.sub(n);
    }

    pub fn mul(self, n: u16) -> (r: Self)
        requires
            self.value() * n <= u16::MAX,
        ensures
            self.same_axis(r),
            r.value() == self.value() * n,
    {
        match self {
            Coord::X(x) => Coord::X(x * n),
            Coord::Y(y) => Coord::Y(y * n),
        }
    }

    pub fn mul_assign(&mut self, n: u16)
        requires
            old(self).value() * n <= u16::MAX,
        ensures
            old(self).same_axis(*final(self)),
            final(self).value() == old(self).value() * n,
    {
        *self = self.mul(n);
    }

    pub fn div(self, n: u16) -> (r: Self)
        requires
            n > 0,
        ensures
            self.same_axis(r),
            r.value() == self.value() as int / n as int,
    {
        match self {
            Coord::X(x) => Coord::X(x / n),
            Coord::Y(y) => Coord::Y(y / n),
        }
    }

    pub fn div_assign(&mut self, n: u16)
        requires
            n > 0,
        ensures
            old(self).same_axis(*final(self)),
            final(self).value() == old(self).value() as int / n as int,
    {
        *self = self.div(n);
    }
}

// Areas

/// A region of the grid that can say whether a position lies in it and
/// where its middle tile is.
pub trait Area {
    /// Which positions the region holds.
    spec fn contains_spec(&self, p: Position) -> bool;

    /// The middle can be computed without the coordinate sums wrapping.
    spec fn middle_ok(&self) -> bool;

    /// The middle tile, rounded down on both axes.
    spec fn middle_spec(&self) -> Position;

    fn contains(&self, p: Position) -> (r: bool)
        ensures
            r == self.contains_spec(p),
    ;

    fn middle(&self) -> (r: Position)
        requires
            self.middle_ok(),
        ensures
            r == self.middle_spec(),
    ;
}

impl Area for Position {
    open spec fn contains_spec(&self, p: Position) -> bool {
        *self == p
    }

    open spec fn middle_ok(&self) -> bool {
        true
    }

    open spec fn middle_spec(&self) -> Position {
        *self
    }

    fn contains(&self, p: Position) -> (r: bool) {
        *self == p
    }

    fn middle(&self) -> (r: Position) {
        *self
    }
}

impl Area for Space {
    /// Inclusive of `pos`, exclusive of `end`.
    open spec fn contains_spec(&self, p: Position) -> bool {
        self.pos.x <= p.x < self.end.x && self.pos.y <= p.y < self.end.y
    }

    open spec fn middle_ok(&self) -> bool {
        self.pos.x + self.end.x <= u16::MAX && self.pos.y + self.end.y <= u16::MAX
    }

    open spec fn middle_spec(&self) -> Position {
        Point {
            x: ((self.pos.x + self.end.x) / 2) as u16,
            y: ((self.pos.y + self.end.y) / 2) as u16,
        }
    }

    fn contains(&self, p: Position) -> (r: bool) {
        let Rect { pos: p1, end: p2 } = self;

        p1.x <= p.x && p.x < p2.x && p1.y <= p.y && p.y < p2.y
    }

    fn middle(&self) -> (r: Position) {
        let Rect { pos: p1, end: p2 } = self;

        Point { x: average(p1.x, p2.x), y: average(p1.y, p2.y) }
    }
}

impl Area for Straight {
    /// Inclusive of `pos`, exclusive of the coordinate that `end` names.
    open spec fn contains_spec(&self, p: Position) -> bool {
        match self.end {
            Coord::X(cx) => self.pos.y == p.y && self.pos.x <= p.x < cx,
            Coord::Y(cy) => self.pos.x == p.x && self.pos.y <= p.y < cy,
        }
    }

    open spec fn middle_ok(&self) -> bool {
        match self.end {
            Coord::X(cx) => self.pos.x + cx <= u16::MAX,
            Coord::Y(cy) => self.pos.y + cy <= u16::MAX,
        }
    }

    open spec fn middle_spec(&self) -> Position {
        match self.end {
            Coord::X(cx) => Point { x: ((self.pos.x + cx) / 2) as u16, y: self.pos.y },
            Coord::Y(cy) => Point { x: self.pos.x, y: ((self.pos.y + cy) / 2) as u16 },
        }
    }

    fn contains(&self, p: Position) -> (r: bool) {
        let Line { pos: p1, end: c2 } = *self;

        match c2 {
            Coord::X(cx) => p1.y == p.y && p1.x <= p.x && p.x < cx,
            Coord::Y(cy) => p1.x == p.x && p1.y <= p.y && p.y < cy,
        }
    }

    fn middle(&self) -> (r: Position) {
        let Line { pos: p1, end: c2 } = *self;

        match c2 {
            Coord::X(cx) => Point { x: average(p1.x, cx), ..p1 },
            Coord::Y(cy) => Point { y: average(p1.y, cy), ..p1 },
        }
    }
}

// Point iterators

/// An area whose tiles can be walked strip by strip.
pub trait Points: Area {
    type StripsIter;

    /// The strip walker can be built without the coordinate arithmetic
    /// wrapping.
    spec fn strips_ok(&self) -> bool;

    /// The strip walker's starting state.
    spec fn strips_spec(&self) -> Self::StripsIter;

    fn strips(self) -> (r: Self::StripsIter)
        requires
            self.strips_ok(),
        ensures
            r == self.strips_spec(),
    ;
}

/// One horizontal run of positions, walked left to right.
pub struct Strip {
    pub next: Position,
    pub end: u16,
}

impl Strip {
    /// Hand out the next position of the run, or nothing once `next.x`
    /// reaches `end`.
    pub fn next(&mut self) -> (r: Option<Position>)
        ensures
            if old(self).next.x < old(self).end {
                r == Some(old(self).next) && final(self).end == old(self).end
                    && final(self).next == (Point {
                    x: (old(self).next.x + 1) as u16,
                    y: old(self).next.y,
                })
            } else {
                r == None::<Position> && *final(self) == *old(self)
            },
    {
        if self.next.x < self.end {
            let res = Some(self.next);
            self.next.x = self.next.x + 1;
            return res;
        }
        None
    }
}

impl Point {
    /// The single strip that covers just this position.
    pub fn strip(self) -> (r: Strip)
        requires
            self.x < u16::MAX,
        ensures
            r.next == self,
            r.end == self.x + 1,
    {
        Strip { next: self, end: self.x + 1 }
    }
}

/// A strip walker that hands out one strip, then nothing.
pub struct OnceStrip {
    pub item: Option<Strip>,
}

impl OnceStrip {
    pub fn next(&mut self) -> (r: Option<Strip>)
        ensures
            final(self).item == None::<Strip>,
            match old(self).item {
                Some(s) => r == Some(s),
                None => r == None::<Strip>,
            },
    {
        let r = match &self.item {
            Some(s) => Some(Strip { next: s.next, end: s.end }),
            None => None,
        };
        self.item = None;
        r
    }
}

impl Points for Position {
    type StripsIter = OnceStrip;

    open spec fn strips_ok(&self) -> bool {
        self.x < u16::MAX
    }

    open spec fn strips_spec(&self) -> OnceStrip {
        OnceStrip { item: Some(Strip { next: *self, end: (self.x + 1) as u16 }) }
    }

    fn strips(self) -> (r: OnceStrip) {
        OnceStrip { item: Some(self.strip()) }
    }
}

/// Walks every position of a rectangle, row by row, left to right.
pub struct RectPoints {
    pub next: Position,
    pub left: u16,
    pub end: Position,
}

impl Rect {
    /// A walker over every position of the rectangle.
    pub fn points(self) -> (r: RectPoints)
        ensures
            r == (RectPoints { next: self.pos, left: self.pos.x, end: self.end }),
    {
        RectPoints { next: self.pos, left: self.pos.x, end: self.end }
    }
}

impl RectPoints {
    /// The coordinate arithmetic of one step cannot wrap.
    pub open spec fn step_ok(self) -> bool {
        self.next.x < self.end.x || (self.next.y < u16::MAX && (self.next.y + 1 >= self.end.y
            || self.left < u16::MAX))
    }

    /// Hand out the next position: the rest of the current row, then each
    /// following row from `left`, until the row `end.y` is reached.
    pub fn next(&mut self) -> (r: Option<Position>)
        requires
            old(self).step_ok(),
        ensures
            if old(self).next.x < old(self).end.x {
                r == Some(old(self).next) && *final(self) == (RectPoints {
                    next: Point { x: (old(self).next.x + 1) as u16, y: old(self).next.y },
                    ..*old(self)
                })
            } else if old(self).next.y + 1 < old(self).end.y {
                r == Some(Point { x: old(self).left, y: (old(self).next.y + 1) as u16 })
                    && *final(self) == (RectPoints {
                    next: Point {
                        x: (old(self).left + 1) as u16,
                        y: (old(self).next.y + 1) as u16,
                    },
                    ..*old(self)
                })
            } else {
                r == None::<Position> && *final(self) == *old(self)
            },
    {
        let RectPoints { next: current, left, end } = *self;

        if current.x < end.x {
            self.next.x = self.next.x + 1;
            return Some(current);
        }
        if current.y < end.y && current.y + 1 < end.y {
            let current = Point { x: left, y: current.y + 1 };
            self.next = Point { x: current.x + 1, ..current };
            return Some(current);
        }
        None
    }
}

/// Walks a rectangle one row-strip at a time, top to bottom.
pub struct RectStrips {
    pub next: Position,
    pub end: Position,
}

impl Points for Space {
    type StripsIter = RectStrips;

    open spec fn strips_ok(&self) -> bool {
        true
    }

    open spec fn strips_spec(&self) -> RectStrips {
        RectStrips { next: self.pos, end: self.end }
    }

    fn strips(self) -> (r: RectStrips) {
        RectStrips { next: self.pos, end: self.end }
    }
}

impl RectStrips {
    /// Hand out the strip of the current row, or nothing once the row
    /// `end.y` is reached.
    pub fn next(&mut self) -> (r: Option<Strip>)
        ensures
            if old(self).next.y < old(self).end.y {
                r == Some(Strip { next: old(self).next, end: old(self).end.x }) && *final(self)
                    == (RectStrips {
                    next: Point { x: old(self).next.x, y: (old(self).next.y + 1) as u16 },
                    end: old(self).end,
                })
            } else {
                r == None::<Strip> && *final(self) == *old(self)
            },
    {
        if self.next.y < self.end.y {
            let strip = Strip { next: self.next, end: self.end.x };
            self.next.y = self.next.y + 1;
            return Some(strip);
        }
        None
    }
}

/// Walks every position of a straight run, in axis order.
pub struct LongPoints {
    pub next: Position,
    pub end: Coordinate,
}

impl Line {
    /// A walker over every position of the run.
    pub fn points(self) -> (r: LongPoints)
        ensures
            r == (LongPoints { next: self.pos, end: self.end }),
    {
        LongPoints { next: self.pos, end: self.end }
    }
}

impl LongPoints {
    /// Hand out the next position of the run, or nothing once the
    /// coordinate that `end` names is reached.
    pub fn next(&mut self) -> (r: Option<Position>)
        ensures
            match old(self).end {
                Coord::X(cx) => if old(self).next.x < cx {
                    r == Some(old(self).next) && *final(self) == (LongPoints {
                        next: Point { x: (old(self).next.x + 1) as u16, y: old(self).next.y },
                        end: old(self).end,
                    })
                } else {
                    r == None::<Position> && *final(self) == *old(self)
                },
                Coord::Y(cy) => if old(self).next.y < cy {
                    r == Some(old(self).next) && *final(self) == (LongPoints {
                        next: Point { x: old(self).next.x, y: (old(self).next.y + 1) as u16 },
                        end: old(self).end,
                    })
                } else {
                    r == None::<Position> && *final(self) == *old(self)
                },
            },
    {
        let current = self.next;
        match self.end {
            Coord::X(cx) => if current.x < cx {
                self.next.x = self.next.x + 1;
                return Some(current);
            },
            Coord::Y(cy) => if current.y < cy {
                self.next.y = self.next.y + 1;
                return Some(current);
            },
        }
        None
    }
}

/// Walks a straight run one strip at a time: a horizontal run is one
/// strip, a vertical run is one single-tile strip per row.
pub struct LongStrips {
    pub next: Position,
    pub end: Option<Coordinate>,
}

impl Points for Straight {
    type StripsIter = LongStrips;

    open spec fn strips_ok(&self) -> bool {
        true
    }

    open spec fn strips_spec(&self) -> LongStrips {
        LongStrips { next: self.pos, end: Some(self.end) }
    }

    fn strips(self) -> (r: LongStrips) {
        LongStrips { next: self.pos, end: Some(self.end) }
    }
}

impl LongStrips {
    /// The coordinate arithmetic of one step cannot wrap.
    pub open spec fn step_ok(self) -> bool {
        match self.end {
            Some(Coord::Y(cy)) => self.next.y < cy ==> self.next.x < u16::MAX,
            _ => true,
        }
    }

    /// Hand out the next strip of the run, or nothing once it is walked.
    pub fn next(&mut self) -> (r: Option<Strip>)
        requires
            old(self).step_ok(),
        ensures
            match old(self).end {
                Some(Coord::X(cx)) => r == Some(Strip { next: old(self).next, end: cx })
                    && *final(self) == (LongStrips { next: old(self).next, end: None }),
                Some(Coord::Y(cy)) => if old(self).next.y < cy {
                    r == Some(Strip {
                        next: old(self).next,
                        end: (old(self).next.x + 1) as u16,
                    }) && *final(self) == (LongStrips {
                        next: Point { x: old(self).next.x, y: (old(self).next.y + 1) as u16 },
                        end: old(self).end,
                    })
                } else {
                    r == None::<Strip> && *final(self) == *old(self)
                },
                None => r == None::<Strip> && *final(self) == *old(self),
            },
    {
        let current = self.next;
        match self.end {
            Some(Coord::X(cx)) => {
                self.end = None;
                Some(Strip { next: current, end: cx })
            },
            Some(Coord::Y(cy)) => {
                if current.y < cy {
                    self.next.y = self.next.y + 1;
                    Some(Strip { next: current, end: current.x + 1 })
                } else {
                    None
                }
            },
            None => None,
        }
    }
}

} // verus!
