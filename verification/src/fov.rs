//! Field-of-view by symmetric shadowcasting.
//!
//! Given an origin tile and a predicate telling floor from wall, the
//! algorithm reports exactly the tiles visible from the origin under
//! straight-line-of-sight rules.  It walks eight octants around the origin;
//! inside an octant it scans rows of increasing depth within a slope
//! interval, kept as exact rationals and compared by cross-multiplication,
//! splitting the interval at transitions between floor and wall.
//!
//! The whole scan is mirrored by the spec functions [`scan_row`],
//! [`scan_stack`] and [`scan_from`]; [`compute`] returns exactly the mark
//! sequence those describe, origin first.
//!
//! The laws proved of the scan: re-invocation changes nothing
//! ([`lemma_compute_deterministic`]); every tile of an open rectangular
//! room is reported ([`lemma_open_room_visible`]); a wall next to the
//! origin is always reported ([`lemma_adjacent_wall_visible`]) and hides
//! every tile strictly behind it on its ray
//! ([`lemma_adjacent_wall_blocks_ray`]); and sight is symmetric under
//! point reflection on a mirrored map ([`lemma_symmetric_sight`]).

use vstd::prelude::*;

use crate::points::{Move, Point};

verus! {

/// Depth one past the last grid column an octant can reach: no tile of the
/// `u16` grid lies `MAX_DEPTH` or more tiles from an origin on any axis.
pub const MAX_DEPTH: u32 = 0x10000;

// Slopes

/// An exact non-negative rational `num / den`, `den > 0`; the boundary line
/// between visible and occluded lateral positions at a given depth.
#[derive(Clone, Copy, PartialEq, Eq, Structural, Debug)]
pub struct Slope {
    pub num: u32,
    pub den: u32,
}

impl Slope {
    /// The denominator is positive and both parts stay small enough that
    /// every product this module forms fits in a `u64`.
    pub open spec fn wf(self) -> bool {
        1 <= self.den <= 2 * MAX_DEPTH && self.num <= 2 * MAX_DEPTH + 1
    }

    /// Slope zero: the scan axis itself.
    pub fn zero() -> (r: Slope)
        ensures
            r == (Slope { num: 0u32, den: 1u32 }),
    {
        Slope { num: 0, den: 1 }
    }

    /// Slope one: the diagonal edge of the octant.
    pub fn one() -> (r: Slope)
        ensures
            r == (Slope { num: 1u32, den: 1u32 }),
    {
        Slope { num: 1, den: 1 }
    }
}

/// A position relative to the origin in the canonical octant frame:
/// `x` is the depth along the octant's scan axis, `y` the lateral offset,
/// with `x >= y >= 0` for every point the scanner builds.
#[derive(Clone, Copy, PartialEq, Eq, Structural, Debug)]
pub struct Rel {
    pub x: u32,
    pub y: u32,
}

/// The slope to the lower edge of a tile: `(2 y - 1) / (2 x)`.
pub open spec fn slope_spec(p: Rel) -> Slope {
    Slope { num: (2 * p.y - 1) as u32, den: (2 * p.x) as u32 }
}

/// The slope arithmetic stays in range.
pub open spec fn slope_ok(p: Rel) -> bool {
    1 <= p.y <= MAX_DEPTH && 1 <= p.x <= MAX_DEPTH
}

/// Calculate the new slope from the bottom edge of a tile.
pub fn slope(p: Rel) -> (r: Slope)
    requires
        slope_ok(p),
    ensures
        r == slope_spec(p),
        r.wf(),
{
    Slope { num: 2 * p.y - 1, den: 2 * p.x }
}

// Rounding of rational row bounds

/// `ceil(num / den - 1/2)`: the last row at or below the upper boundary,
/// where a row exactly on the half-line is kept out.
pub open spec fn rhd(num: int, den: int) -> int {
    (2 * num + den - 1) / (2 * den)
}

/// `floor(num / den + 1/2)`: the first row at or above the lower boundary,
/// where a row exactly on the half-line is kept out.
pub open spec fn rhu(num: int, den: int) -> int {
    (2 * num + den) / (2 * den)
}

/// `rhd` is the greatest integer strictly within half a unit above the
/// rational, and it is never negative.
pub proof fn lemma_rhd_char(num: int, den: int)
    requires
        0 <= num,
        1 <= den,
    ensures
        2 * num <= 2 * den * rhd(num, den) + den,
        2 * num > 2 * den * rhd(num, den) - den,
        rhd(num, den) >= 0,
{
    let x = 2 * num + den - 1;
    let d = 2 * den;
    let q = x / d;
    vstd::arithmetic::div_mod::lemma_fundamental_div_mod(x, d);
    vstd::arithmetic::div_mod::lemma_remainder_lower(x, d);
    vstd::arithmetic::div_mod::lemma_remainder_upper(x, d);
    vstd::arithmetic::div_mod::lemma_div_pos_is_pos(x, d);
    assert(x == d * q + x % d);
    assert(0 <= x % d < d);
    assert(2 * num <= 2 * den * q + den) by (nonlinear_arith)
        requires
            x == d * q + x % d,
            0 <= x % d,
            x == 2 * num + den - 1,
            d == 2 * den,
            1 <= den,
    ;
    assert(2 * num > 2 * den * q - den) by (nonlinear_arith)
        requires
            x == d * q + x % d,
            x % d < d,
            x == 2 * num + den - 1,
            d == 2 * den,
            1 <= den,
    ;
}

/// `rhu` is the least integer strictly within half a unit below the
/// rational, and it is never negative.
pub proof fn lemma_rhu_char(num: int, den: int)
    requires
        0 <= num,
        1 <= den,
    ensures
        2 * num >= 2 * den * rhu(num, den) - den,
        2 * num < 2 * den * rhu(num, den) + den,
        rhu(num, den) >= 0,
{
    let x = 2 * num + den;
    let d = 2 * den;
    let q = x / d;
    vstd::arithmetic::div_mod::lemma_fundamental_div_mod(x, d);
    vstd::arithmetic::div_mod::lemma_remainder_lower(x, d);
    vstd::arithmetic::div_mod::lemma_remainder_upper(x, d);
    vstd::arithmetic::div_mod::lemma_div_pos_is_pos(x, d);
    assert(x == d * q + x % d);
    assert(0 <= x % d < d);
    assert(2 * num >= 2 * den * q - den) by (nonlinear_arith)
        requires
            x == d * q + x % d,
            0 <= x % d,
            x == 2 * num + den,
            d == 2 * den,
            1 <= den,
    ;
    assert(2 * num < 2 * den * q + den) by (nonlinear_arith)
        requires
            x == d * q + x % d,
            x % d < d,
            x == 2 * num + den,
            d == 2 * den,
            1 <= den,
    ;
}

/// Round a non-negative rational to the nearest integer, an exact half
/// rounding down.
fn round_half_down(num: u64, den: u64) -> (r: u64)
    requires
        1 <= den <= 0x2_0000_0000,
        num <= 0x20_0000_0000,
    ensures
        r == rhd(num as int, den as int),
{
    (2 * num + den - 1) / (2 * den)
}

/// Round a non-negative rational to the nearest integer, an exact half
/// rounding up.
fn round_half_up(num: u64, den: u64) -> (r: u64)
    requires
        1 <= den <= 0x2_0000_0000,
        num <= 0x20_0000_0000,
    ensures
        r == rhu(num as int, den as int),
{
    (2 * num + den) / (2 * den)
}

// Octants

/// One of the eight 45-degree sectors around the origin, named by the main
/// direction of its scan axis and the side of that axis it covers.
#[derive(Clone, Copy, PartialEq, Eq, Structural, Debug)]
pub enum OctSection {
    LeftUp,
    LeftDown,
    RightUp,
    RightDown,
    UpLeft,
    UpRight,
    DownLeft,
    DownRight,
}

/// An octant: a scan origin and the reflection rule of one sector.
#[derive(Clone, Copy, PartialEq, Eq, Structural, Debug)]
pub struct Octant {
    pub origin: Point,
    pub section: OctSection,
}

impl Octant {
    /// Where a relative point lands on the absolute grid, as unbounded
    /// integers: an axis swap and sign flips around the origin.
    pub open spec fn abs_spec(self, rel: Rel) -> (int, int) {
        let ox = self.origin.x as int;
        let oy = self.origin.y as int;
        match self.section {
            OctSection::LeftUp => (ox - rel.x, oy - rel.y),
            OctSection::LeftDown => (ox - rel.x, oy + rel.y),
            OctSection::RightUp => (ox + rel.x, oy - rel.y),
            OctSection::RightDown => (ox + rel.x, oy + rel.y),
            OctSection::UpLeft => (ox - rel.y, oy - rel.x),
            OctSection::UpRight => (ox + rel.y, oy - rel.x),
            OctSection::DownLeft => (ox - rel.y, oy + rel.x),
            OctSection::DownRight => (ox + rel.y, oy + rel.x),
        }
    }

    /// The relative point lands on the grid: neither coordinate leaves
    /// `0..=u16::MAX`.
    pub open spec fn abs_ok(self, rel: Rel) -> bool {
        0 <= self.abs_spec(rel).0 <= u16::MAX && 0 <= self.abs_spec(rel).1 <= u16::MAX
    }

    /// The absolute grid position of a relative point that lands on the
    /// grid.
    pub open spec fn abs_pt(self, rel: Rel) -> Point {
        Point { x: self.abs_spec(rel).0 as u16, y: self.abs_spec(rel).1 as u16 }
    }

    /// Transform a relative point to the absolute grid, or nothing where
    /// the point falls off the grid: such a position does not exist and is
    /// treated as opaque by the scanner.
    pub fn absolute(&self, rel: Rel) -> (r: Option<Point>)
        ensures
            r == if self.abs_ok(rel) {
                Some(self.abs_pt(rel))
            } else {
                None::<Point>
            },
    {
        let ox = self.origin.x as i64;
        let oy = self.origin.y as i64;
        let rx = rel.x as i64;
        let ry = rel.y as i64;
        let (x, y): (i64, i64) = match self.section {
            OctSection::LeftUp => (ox - rx, oy - ry),
            OctSection::LeftDown => (ox - rx, oy + ry),
            OctSection::RightUp => (ox + rx, oy - ry),
            OctSection::RightDown => (ox + rx, oy + ry),
            OctSection::UpLeft => (ox - ry, oy - rx),
            OctSection::UpRight => (ox + ry, oy - rx),
            OctSection::DownLeft => (ox - ry, oy + rx),
            OctSection::DownRight => (ox + ry, oy + rx),
        };
        if 0 <= x && x <= u16::MAX as i64 && 0 <= y && y <= u16::MAX as i64 {
            Some(Point { x: x as u16, y: y as u16 })
        } else {
            None
        }
    }

    /// The eight octants around an origin, in enumeration order.
    pub open spec fn octants(origin: Point) -> Seq<Octant> {
        seq![
            Octant { origin, section: OctSection::LeftUp },
            Octant { origin, section: OctSection::LeftDown },
            Octant { origin, section: OctSection::RightUp },
            Octant { origin, section: OctSection::RightDown },
            Octant { origin, section: OctSection::UpLeft },
            Octant { origin, section: OctSection::UpRight },
            Octant { origin, section: OctSection::DownLeft },
            Octant { origin, section: OctSection::DownRight },
        ]
    }

    /// The eight octants around an origin, in the order of
    /// [`Octant::octants`].
    pub fn iter_from(origin: Point) -> (r: Vec<Octant>)
        ensures
            r@ == Octant::octants(origin),
    {
        let r: Vec<Octant> = vec![
            Octant { origin, section: OctSection::LeftUp },
            Octant { origin, section: OctSection::LeftDown },
            Octant { origin, section: OctSection::RightUp },
            Octant { origin, section: OctSection::RightDown },
            Octant { origin, section: OctSection::UpLeft },
            Octant { origin, section: OctSection::UpRight },
            Octant { origin, section: OctSection::DownLeft },
            Octant { origin, section: OctSection::DownRight },
        ];
        proof {
            assert(r@ =~= Octant::octants(origin));
        }
        r
    }
}

// Columns

/// One unit of pending work in an octant: scan the row at `depth` within
/// the slope interval `[bottom_slope, top_slope]`.
#[derive(Clone, Copy, PartialEq, Eq, Structural, Debug)]
pub struct Col {
    pub depth: u32,
    pub top_slope: Slope,
    pub bottom_slope: Slope,
}

impl Col {
    /// The slopes stay in range, the top slope never exceeds one, and the
    /// depth stays within the reach of the grid.
    pub open spec fn wf(self) -> bool {
        &&& 1 <= self.depth <= MAX_DEPTH
        &&& self.top_slope.wf()
        &&& self.bottom_slope.wf()
        &&& self.top_slope.num <= self.top_slope.den
    }

    /// The first column of every octant: depth one, the full interval from
    /// slope zero to slope one.
    pub open spec fn first_spec() -> Col {
        Col {
            depth: 1u32,
            top_slope: Slope { num: 1u32, den: 1u32 },
            bottom_slope: Slope { num: 0u32, den: 1u32 },
        }
    }

    pub fn first() -> (r: Self)
        ensures
            r == Col::first_spec(),
            r.wf(),
    {
        Self { depth: 1, top_slope: Slope::one(), bottom_slope: Slope::zero() }
    }

    /// The same interval, one row deeper.
    pub open spec fn next_spec(self) -> Col {
        Col { depth: (self.depth + 1) as u32, ..self }
    }

    pub fn next(&self) -> (r: Self)
        requires
            self.depth < u32::MAX,
        ensures
            r == self.next_spec(),
    {
        Self { depth: self.depth + 1, ..*self }
    }

    /// The interval tightened from above to the slope of a tile's lower
    /// edge.
    pub open spec fn top_slope_spec(self, rel: Rel) -> Col {
        Col { top_slope: slope_spec(rel), ..self }
    }

    pub fn top_slope(&self, rel: Rel) -> (r: Self)
        requires
            slope_ok(rel),
        ensures
            r == self.top_slope_spec(rel),
    {
        Self { top_slope: slope(rel), ..*self }
    }

    /// The interval tightened from below to the slope of a tile's lower
    /// edge.
    pub open spec fn bottom_slope_spec(self, rel: Rel) -> Col {
        Col { bottom_slope: slope_spec(rel), ..self }
    }

    pub fn bottom_slope(&self, rel: Rel) -> (r: Self)
        requires
            slope_ok(rel),
        ensures
            r == self.bottom_slope_spec(rel),
    {
        Self { bottom_slope: slope(rel), ..*self }
    }

    /// The first row of the column's range: the lower boundary rounded
    /// half-up.
    pub open spec fn lower(self) -> int {
        rhu(self.bottom_slope.num * self.depth, self.bottom_slope.den as int)
    }

    /// The last row of the column's range: the upper boundary rounded
    /// half-down.
    pub open spec fn upper(self) -> int {
        rhd(self.top_slope.num * self.depth, self.top_slope.den as int)
    }

    /// How many rows the column's range holds.
    pub open spec fn row_len(self) -> int {
        if self.lower() <= self.upper() {
            self.upper() - self.lower() + 1
        } else {
            0
        }
    }

    /// The relative points of the column's row, in increasing lateral
    /// order: from the `bottom_slope` edge to the `top_slope` edge.
    pub open spec fn row_pts(self) -> Seq<Rel> {
        Seq::new(
            self.row_len() as nat,
            |i: int| Rel { x: self.depth, y: (self.lower() + i) as u32 },
        )
    }

    /// The points of the row never outrun the depth: each lateral offset
    /// stays at or below it, so every point keeps `x >= y >= 0`.
    pub proof fn lemma_row_bounds(self)
        requires
            self.wf(),
        ensures
            self.upper() <= self.depth,
            self.lower() >= 0,
            self.row_len() <= self.depth + 1,
            forall|i: int|
                0 <= i < self.row_len() ==> (#[trigger] self.row_pts()[i]).y <= self.depth
                    && self.row_pts()[i].y == self.lower() + i && self.row_pts()[i].x
                    == self.depth,
    {
        let tn = self.top_slope.num as int;
        let td = self.top_slope.den as int;
        let bn = self.bottom_slope.num as int;
        let bd = self.bottom_slope.den as int;
        let d = self.depth as int;
        lemma_rhd_char(tn * d, td);
        lemma_rhu_char(bn * d, bd);
        let u = self.upper();
        assert(2 * (tn * d) <= 2 * td * u + td);
        assert(u <= d) by (nonlinear_arith)
            requires
                2 * (tn * d) <= 2 * td * u + td,
                2 * (tn * d) > 2 * td * u - td,
                0 <= tn <= td,
                1 <= td,
                1 <= d,
        ;
        assert(forall|i: int|
            0 <= i < self.row_len() ==> (#[trigger] self.row_pts()[i]).y == self.lower() + i);
    }

    /// Compute the row's relative points.
    pub fn points(&self) -> (r: Vec<Rel>)
        requires
            self.wf(),
        ensures
            r@ == self.row_pts(),
    {
        proof {
            self.lemma_row_bounds();
            assert(self.top_slope.num as int * self.depth as int <= 0x20_0000_0000
                && self.bottom_slope.num as int * self.depth as int <= 0x20_0000_0000)
                by (nonlinear_arith)
                requires
                    self.top_slope.num <= 0x20001,
                    self.bottom_slope.num <= 0x20001,
                    self.depth <= 0x10000,
            ;
        }
        let upper = round_half_down(
            self.top_slope.num as u64 * self.depth as u64,
            self.top_slope.den as u64,
        );
        let lower = round_half_up(
            self.bottom_slope.num as u64 * self.depth as u64,
            self.bottom_slope.den as u64,
        );
        let mut r: Vec<Rel> = Vec::new();
        if lower > upper {
            assert(r@ =~= self.row_pts());
            return r;
        }
        let mut y = lower;
        while y <= upper
            invariant
                lower as int == self.lower(),
                upper as int == self.upper(),
                lower <= y <= upper + 1,
                upper <= self.depth,
                r@.len() == y - lower,
                forall|i: int|
                    0 <= i < r@.len() ==> #[trigger] r@[i] == (Rel {
                        x: self.depth,
                        y: (lower + i) as u32,
                    }),
            decreases upper + 1 - y,
        {
            r.push(Rel { x: self.depth, y: y as u32 });
            y = y + 1;
        }
        proof {
            assert(r@ =~= self.row_pts());
        }
        r
    }

    /// Whether a tile's centre lies within the column's slope interval,
    /// boundaries included: `bottom_slope * depth <= y <= top_slope *
    /// depth`, compared by cross-multiplication.
    pub open spec fn is_symmetric_spec(self, rel: Rel) -> bool {
        &&& rel.y * self.bottom_slope.den >= self.bottom_slope.num * self.depth
        &&& rel.y * self.top_slope.den <= self.top_slope.num * self.depth
    }

    pub fn is_symmetric(&self, rel: Rel) -> (r: bool)
        requires
            self.wf(),
            rel.y <= MAX_DEPTH,
        ensures
            r == self.is_symmetric_spec(rel),
    {
        let y = rel.y as u64;
        let d = self.depth as u64;
        proof {
            assert(y as int * self.bottom_slope.den as int <= 0x20_0000_0000 && y as int
                * self.top_slope.den as int <= 0x20_0000_0000 && self.bottom_slope.num as int
                * d as int <= 0x20_0000_0000 && self.top_slope.num as int * d as int
                <= 0x20_0000_0000) by (nonlinear_arith)
                requires
                    y <= 0x10000,
                    d <= 0x10000,
                    self.bottom_slope.den <= 0x20000,
                    self.top_slope.den <= 0x20000,
                    self.bottom_slope.num <= 0x20001,
                    self.top_slope.num <= 0x20001,
            ;
        }
        y * self.bottom_slope.den as u64 >= self.bottom_slope.num as u64 * d
            && y * self.top_slope.den as u64 <= self.top_slope.num as u64 * d
    }
}

// The caller's map

/// The caller's map: a pure predicate telling floor from wall.
///
/// `floor` is the mathematical predicate, `is_floor` computes it.  The
/// scanner may query the same position more than once, and never queries a
/// position off the `u16` grid.
pub trait Grid {
    /// Which positions hold transparent floor.
    spec fn floor(&self, p: Point) -> bool;

    fn is_floor(&self, p: Point) -> (r: bool)
        ensures
            r == self.floor(p),
    ;
}

// The specification model of the scan

/// A scanned tile is either opaque or transparent floor.
#[derive(Clone, Copy, PartialEq, Eq, Structural, Debug)]
pub enum TileClass {
    Wall,
    Floor,
}

/// How the scanner classifies a relative point: floor when it lands on the
/// grid and the floor predicate holds there; every other point, those off
/// the grid included, is a wall.
pub open spec fn class_of(floor: spec_fn(Point) -> bool, oct: Octant, rel: Rel) -> TileClass {
    if oct.abs_ok(rel) && floor(oct.abs_pt(rel)) {
        TileClass::Floor
    } else {
        TileClass::Wall
    }
}

/// What the scanner reports for one relative point: a wall tile is always
/// reported so the obstruction itself can be drawn, a floor tile only when
/// its centre lies within the column's interval; a point off the grid is
/// never reported.
pub open spec fn mark_at(
    floor: spec_fn(Point) -> bool,
    oct: Octant,
    col: Col,
    rel: Rel,
) -> Seq<Point> {
    if oct.abs_ok(rel) && (!floor(oct.abs_pt(rel)) || col.is_symmetric_spec(rel)) {
        seq![oct.abs_pt(rel)]
    } else {
        Seq::empty()
    }
}

/// One column's row from lateral index `i` on, where `prev` classifies the
/// point just before `i`: the points reported, in scan order, and the
/// columns pushed for later depths.
///
/// A floor-to-wall transition narrows the interval from above and pushes
/// the continuation one row deeper; a wall-to-floor transition pushes a
/// column that rescans this same depth from the transition upward and
/// abandons the rest of the row; a row that ends on floor pushes the
/// unchanged interval one row deeper.
pub open spec fn scan_row(
    floor: spec_fn(Point) -> bool,
    oct: Octant,
    col: Col,
    i: int,
    prev: Option<TileClass>,
) -> (Seq<Point>, Seq<Col>)
    decreases col.row_len() - i,
{
    if i < 0 || i >= col.row_len() {
        if prev == Some(TileClass::Floor) {
            (Seq::empty(), seq![col.next_spec()])
        } else {
            (Seq::empty(), Seq::<Col>::empty())
        }
    } else {
        let rel = col.row_pts()[i];
        let curr = class_of(floor, oct, rel);
        let m = mark_at(floor, oct, col, rel);
        if prev == Some(TileClass::Floor) && curr == TileClass::Wall {
            let rest = scan_row(floor, oct, col, i + 1, Some(curr));
            (m + rest.0, seq![col.top_slope_spec(rel).next_spec()] + rest.1)
        } else if prev == Some(TileClass::Wall) && curr == TileClass::Floor {
            (m, seq![col.bottom_slope_spec(rel)])
        } else {
            let rest = scan_row(floor, oct, col, i + 1, Some(curr));
            (m + rest.0, rest.1)
        }
    }
}

/// A whole octant from a stack of pending columns, popped last-in
/// first-out, within a fuel bound on the number of pops: the points
/// reported, or nothing where the fuel does not cover the scan.
pub open spec fn scan_stack(
    floor: spec_fn(Point) -> bool,
    oct: Octant,
    stack: Seq<Col>,
    fuel: nat,
) -> Option<Seq<Point>>
    decreases fuel,
{
    if stack.len() == 0 {
        Some(Seq::empty())
    } else if fuel == 0 {
        None
    } else {
        let rp = scan_row(floor, oct, stack.last(), 0, None);
        match scan_stack(floor, oct, stack.drop_last() + rp.1, (fuel - 1) as nat) {
            Some(rest) => Some(rp.0 + rest),
            None => None,
        }
    }
}

/// The octants from index `i` on, each scanned from its first column,
/// their reports in octant order; nothing where the fuel does not cover
/// them.
pub open spec fn scan_from(
    floor: spec_fn(Point) -> bool,
    origin: Point,
    i: int,
    fuel: nat,
) -> Option<Seq<Point>>
    decreases 8 - i,
{
    if i < 0 || i >= 8 {
        Some(Seq::<Point>::empty())
    } else {
        match scan_stack(floor, Octant::octants(origin)[i], seq![Col::first_spec()], fuel) {
            Some(m) => match scan_from(floor, origin, i + 1, fuel) {
                Some(rest) => Some(m + rest),
                None => None,
            },
            None => None,
        }
    }
}

/// What [`compute`] returns: the origin first, then, for some fuel large
/// enough to cover the whole scan, exactly the points of the eight octant
/// scans in enumeration order.
pub open spec fn compute_post(
    floor: spec_fn(Point) -> bool,
    origin: Point,
    r: Seq<Point>,
) -> bool {
    &&& r.len() >= 1
    &&& r[0] == origin
    &&& exists|fuel: nat| scan_from(floor, origin, 0, fuel) == Some(r.skip(1))
}

/// More fuel never changes an octant scan that already finished.
pub proof fn lemma_scan_stack_mono(
    floor: spec_fn(Point) -> bool,
    oct: Octant,
    stack: Seq<Col>,
    f1: nat,
    f2: nat,
)
    requires
        f1 <= f2,
        scan_stack(floor, oct, stack, f1).is_some(),
    ensures
        scan_stack(floor, oct, stack, f2) == scan_stack(floor, oct, stack, f1),
    decreases f1,
{
    if stack.len() == 0 {
    } else {
        let rp = scan_row(floor, oct, stack.last(), 0, None);
        lemma_scan_stack_mono(
            floor,
            oct,
            stack.drop_last() + rp.1,
            (f1 - 1) as nat,
            (f2 - 1) as nat,
        );
    }
}

/// More fuel never changes a whole scan that already finished.
pub proof fn lemma_scan_from_mono(
    floor: spec_fn(Point) -> bool,
    origin: Point,
    i: int,
    f1: nat,
    f2: nat,
)
    requires
        f1 <= f2,
        scan_from(floor, origin, i, f1).is_some(),
    ensures
        scan_from(floor, origin, i, f2) == scan_from(floor, origin, i, f1),
    decreases 8 - i,
{
    if i < 0 || i >= 8 {
    } else {
        let oct = Octant::octants(origin)[i];
        lemma_scan_stack_mono(floor, oct, seq![Col::first_spec()], f1, f2);
        lemma_scan_from_mono(floor, origin, i + 1, f1, f2);
    }
}

/// Two computations from the same origin over the same floor predicate
/// report the same sequence of points, so in particular the same multiset:
/// re-invoking the scan with identical arguments changes nothing.
pub proof fn lemma_compute_deterministic(
    floor: spec_fn(Point) -> bool,
    origin: Point,
    r1: Seq<Point>,
    r2: Seq<Point>,
)
    requires
        compute_post(floor, origin, r1),
        compute_post(floor, origin, r2),
    ensures
        r1 == r2,
{
    let f1 = choose|f: nat| scan_from(floor, origin, 0, f) == Some(r1.skip(1));
    let f2 = choose|f: nat| scan_from(floor, origin, 0, f) == Some(r2.skip(1));
    let f = if f1 <= f2 {
        f2
    } else {
        f1
    };
    lemma_scan_from_mono(floor, origin, 0, f1, f);
    lemma_scan_from_mono(floor, origin, 0, f2, f);
    assert(r1.skip(1) == r2.skip(1));
    assert(r1.len() == r2.len()) by {
        assert(r1.skip(1).len() == r1.len() - 1);
        assert(r2.skip(1).len() == r2.len() - 1);
    }
    assert forall|i: int| 0 <= i < r1.len() implies r1[i] == r2[i] by {
        if i >= 1 {
            assert(r1.skip(1)[i - 1] == r1[i]);
            assert(r2.skip(1)[i - 1] == r2[i]);
        }
    }
    assert(r1 =~= r2);
}

// Symmetry of the scan under point reflection through the origin

/// The tile at offset `(dx, dy)` from the origin exists on the grid and is
/// floor.
pub open spec fn floor_at(
    floor: spec_fn(Point) -> bool,
    origin: Point,
    dx: int,
    dy: int,
) -> bool {
    &&& 0 <= origin.x + dx <= u16::MAX
    &&& 0 <= origin.y + dy <= u16::MAX
    &&& floor(Point { x: (origin.x + dx) as u16, y: (origin.y + dy) as u16 })
}

/// The map is symmetric under point reflection through the origin.
pub open spec fn mirrored_floor(floor: spec_fn(Point) -> bool, origin: Point) -> bool {
    forall|dx: int, dy: int|
        #[trigger] floor_at(floor, origin, dx, dy) == floor_at(floor, origin, -dx, -dy)
}

/// No floor lies more than `b` tiles from the origin on either axis.
pub open spec fn floor_within(floor: spec_fn(Point) -> bool, origin: Point, b: int) -> bool {
    forall|dx: int, dy: int|
        (dx < -b || dx > b || dy < -b || dy > b) ==> !#[trigger] floor_at(floor, origin, dx, dy)
}

/// The origin stands at least `b + 1` tiles from every edge of the grid.
pub open spec fn margin_ok(origin: Point, b: int) -> bool {
    &&& b + 1 <= origin.x
    &&& origin.x + b + 1 <= u16::MAX
    &&& b + 1 <= origin.y
    &&& origin.y + b + 1 <= u16::MAX
}

/// The reflection of `p` through the origin.
pub open spec fn reflect_pt(origin: Point, p: Point) -> Point {
    Point { x: (2 * origin.x - p.x) as u16, y: (2 * origin.y - p.y) as u16 }
}

/// The opposite sector: the one every tile of this sector reflects into.
spec fn mirror_sec(sec: OctSection) -> OctSection {
    match sec {
        OctSection::LeftUp => OctSection::RightDown,
        OctSection::LeftDown => OctSection::RightUp,
        OctSection::RightUp => OctSection::LeftDown,
        OctSection::RightDown => OctSection::LeftUp,
        OctSection::UpLeft => OctSection::DownRight,
        OctSection::UpRight => OctSection::DownLeft,
        OctSection::DownLeft => OctSection::UpRight,
        OctSection::DownRight => OctSection::UpLeft,
    }
}

/// Opposite sectors classify every relative point alike on a mirrored map,
/// and where the point lands on the grid in both, the marks are mutual
/// reflections.
#[verifier::rlimit(50)]
proof fn lemma_class_mirror(
    floor: spec_fn(Point) -> bool,
    origin: Point,
    sec: OctSection,
    col: Col,
    rel: Rel,
)
    requires
        mirrored_floor(floor, origin),
    ensures
        ({
            let o1 = Octant { origin, section: sec };
            let o2 = Octant { origin, section: mirror_sec(sec) };
            &&& class_of(floor, o1, rel) == class_of(floor, o2, rel)
            &&& (o1.abs_ok(rel) && o2.abs_ok(rel) ==> mark_at(floor, o2, col, rel) =~= mark_at(
                floor,
                o1,
                col,
                rel,
            ).map_values(|p: Point| reflect_pt(origin, p)))
            &&& (o1.abs_ok(rel) == o2.abs_ok(rel) ==> mark_at(floor, o1, col, rel).len() == mark_at(
                floor,
                o2,
                col,
                rel,
            ).len())
        }),
{
    let o1 = Octant { origin, section: sec };
    let o2 = Octant { origin, section: mirror_sec(sec) };
    let (x1, y1) = o1.abs_spec(rel);
    let (x2, y2) = o2.abs_spec(rel);
    let dx = x1 - origin.x;
    let dy = y1 - origin.y;
    assert(x2 - origin.x == -dx && y2 - origin.y == -dy);
    assert(floor_at(floor, origin, dx, dy) == floor_at(floor, origin, -dx, -dy));
    assert(o1.abs_ok(rel) && floor(o1.abs_pt(rel)) ==> floor_at(floor, origin, dx, dy));
    assert(floor_at(floor, origin, dx, dy) ==> o1.abs_ok(rel) && floor(o1.abs_pt(rel)));
    assert(o2.abs_ok(rel) && floor(o2.abs_pt(rel)) ==> floor_at(floor, origin, -dx, -dy));
    assert(floor_at(floor, origin, -dx, -dy) ==> o2.abs_ok(rel) && floor(o2.abs_pt(rel)));
    if o1.abs_ok(rel) && o2.abs_ok(rel) {
        assert(o2.abs_pt(rel) == reflect_pt(origin, o1.abs_pt(rel)));
        if mark_at(floor, o1, col, rel).len() == 1 {
            assert(mark_at(floor, o2, col, rel) =~= mark_at(floor, o1, col, rel).map_values(
                |p: Point| reflect_pt(origin, p),
            ));
        } else {
            assert(mark_at(floor, o2, col, rel) =~= mark_at(floor, o1, col, rel).map_values(
                |p: Point| reflect_pt(origin, p),
            ));
        }
    }
}

/// A scan report reflected through the origin, where there is one.
pub open spec fn mirror_opt(origin: Point, o: Option<Seq<Point>>) -> Option<Seq<Point>> {
    match o {
        Some(s) => Some(s.map_values(|p: Point| reflect_pt(origin, p))),
        None => None::<Seq<Point>>,
    }
}

// Termination measure for the scan loop
//
// A popped column is replaced by its pushed columns, so the loop needs a
// measure that drops on every pop.  Pushes one row deeper lose two powers
// of the base below, and there are fewer of them per row than the base; a
// push that rescans the same depth covers a strictly shorter row.  Summing
// base^(2 * rows-still-reachable) * (row length + 1) over the stack
// therefore drops on every pop.

/// The deepest row of an octant with any tile still on the grid: past it,
/// the scan-axis coordinate has left the grid on every tile of a row.
spec fn oct_bound(oct: Octant) -> int {
    match oct.section {
        OctSection::LeftUp => oct.origin.x as int,
        OctSection::LeftDown => oct.origin.x as int,
        OctSection::RightUp => u16::MAX - oct.origin.x,
        OctSection::RightDown => u16::MAX - oct.origin.x,
        OctSection::UpLeft => oct.origin.y as int,
        OctSection::UpRight => oct.origin.y as int,
        OctSection::DownLeft => u16::MAX - oct.origin.y,
        OctSection::DownRight => u16::MAX - oct.origin.y,
    }
}

/// A relative point on the grid lies at or before the octant's bound.
proof fn lemma_abs_ok_depth(oct: Octant, rel: Rel)
    requires
        oct.abs_ok(rel),
    ensures
        rel.x <= oct_bound(oct),
        0 <= oct_bound(oct) <= u16::MAX,
{
}

/// The measure's base: one more than the octant can ever push from one row.
spec fn kk(oct: Octant) -> nat {
    (oct_bound(oct) + 3) as nat
}

/// The measure's exponent for a column at `depth`.
spec fn expo(oct: Octant, depth: int) -> nat {
    (2 * (oct_bound(oct) + 2 - depth)) as nat
}

/// `k` to the power `h`.
spec fn kpow(k: nat, h: nat) -> nat
    decreases h,
{
    if h == 0 {
        1
    } else {
        k * kpow(k, (h - 1) as nat)
    }
}

proof fn lemma_kpow_pos(k: nat, h: nat)
    requires
        k >= 1,
    ensures
        kpow(k, h) >= 1,
    decreases h,
{
    if h > 0 {
        lemma_kpow_pos(k, (h - 1) as nat);
        assert(k * kpow(k, (h - 1) as nat) >= 1) by (nonlinear_arith)
            requires
                k >= 1,
                kpow(k, (h - 1) as nat) >= 1,
        ;
    }
}

/// The measure of one pending column.
spec fn mcol(oct: Octant, c: Col) -> nat {
    kpow(kk(oct), expo(oct, c.depth as int)) * ((c.row_len() + 1) as nat)
}

/// The measure of a whole stack.
spec fn msum(oct: Octant, s: Seq<Col>) -> nat
    decreases s.len(),
{
    if s.len() == 0 {
        0
    } else {
        msum(oct, s.drop_last()) + mcol(oct, s.last())
    }
}

proof fn lemma_msum_single(oct: Octant, c: Col)
    ensures
        msum(oct, seq![c]) == mcol(oct, c),
{
    let s = seq![c];
    assert(s.len() == 1);
    assert(s.last() == c);
    assert(s.drop_last() =~= Seq::<Col>::empty());
    assert(msum(oct, Seq::<Col>::empty()) == 0);
}

proof fn lemma_msum_add(oct: Octant, s: Seq<Col>, t: Seq<Col>)
    ensures
        msum(oct, s + t) == msum(oct, s) + msum(oct, t),
    decreases t.len(),
{
    if t.len() == 0 {
        assert(s + t =~= s);
    } else {
        lemma_msum_add(oct, s, t.drop_last());
        assert((s + t).drop_last() =~= s + t.drop_last());
        assert((s + t).last() == t.last());
    }
}

/// Every column of an octant's stack is well-formed and within reach.
spec fn stack_wf(oct: Octant, s: Seq<Col>) -> bool {
    forall|k: int|
        0 <= k < s.len() ==> (#[trigger] s[k]).wf() && s[k].depth <= oct_bound(oct) + 1
}

/// Past the octant's bound every tile of a row is off the grid: the row is
/// all wall, reports nothing and pushes nothing.
proof fn lemma_scan_row_dead(
    floor: spec_fn(Point) -> bool,
    oct: Octant,
    c: Col,
    i: int,
    prev: Option<TileClass>,
)
    requires
        c.depth > oct_bound(oct),
        prev != Some(TileClass::Floor),
    ensures
        scan_row(floor, oct, c, i, prev) == (Seq::<Point>::empty(), Seq::<Col>::empty()),
    decreases c.row_len() - i,
{
    if i < 0 || i >= c.row_len() {
    } else {
        let rel = c.row_pts()[i];
        assert(rel.x == c.depth);
        if oct.abs_ok(rel) {
            lemma_abs_ok_depth(oct, rel);
        }
        assert(class_of(floor, oct, rel) == TileClass::Wall);
        lemma_scan_row_dead(floor, oct, c, i + 1, Some(TileClass::Wall));
        assert(scan_row(floor, oct, c, i, prev).0 =~= Seq::<Point>::empty());
        assert(scan_row(floor, oct, c, i, prev).1 =~= Seq::<Col>::empty());
    }
}

/// Rescanning a depth from a tile's own slope starts exactly at that tile:
/// the lower bound of the tightened column is the tile's lateral offset,
/// and its upper bound is unchanged.
proof fn lemma_bottom_lower(c: Col, rel: Rel)
    requires
        c.wf(),
        rel.x == c.depth,
        1 <= rel.y <= MAX_DEPTH,
    ensures
        c.bottom_slope_spec(rel).lower() == rel.y,
        c.bottom_slope_spec(rel).upper() == c.upper(),
        c.bottom_slope_spec(rel).row_len() == if rel.y <= c.upper() {
            c.upper() - rel.y + 1
        } else {
            0
        },
{
    let y = rel.y as int;
    let d = c.depth as int;
    let c2 = c.bottom_slope_spec(rel);
    assert(c2.bottom_slope.num == 2 * y - 1 && c2.bottom_slope.den == 2 * d);
    assert(c2.lower() == (2 * ((2 * y - 1) * d) + 2 * d) / (2 * (2 * d)));
    assert(2 * ((2 * y - 1) * d) + 2 * d == y * (4 * d)) by (nonlinear_arith);
    vstd::arithmetic::div_mod::lemma_div_by_multiple(y, 4 * d);
    assert(c2.lower() == y);
}

/// The columns one row of a scan pushes weigh strictly less than the
/// popped column, and they are all well-formed and within reach.
///
/// The bound is proved down the row: from index `i` with `prev` the class
/// before it, the pushes weigh at most one full-row rescan at this depth
/// (only possible right after a wall) plus one deeper push per remaining
/// tile and one trailing push, each a factor of the base lighter.
proof fn lemma_scan_row_measure(
    floor: spec_fn(Point) -> bool,
    oct: Octant,
    c: Col,
    i: int,
    prev: Option<TileClass>,
)
    requires
        c.wf(),
        c.depth <= oct_bound(oct),
        0 <= i <= c.row_len(),
        prev is Some ==> i >= 1,
    ensures
        stack_wf(oct, scan_row(floor, oct, c, i, prev).1),
        msum(oct, scan_row(floor, oct, c, i, prev).1) <= kpow(kk(oct), expo(oct, c.depth as int))
            * (c.row_len() - i + if prev == Some(TileClass::Wall) {
            1int
        } else {
            0int
        }) + (c.row_len() - i + 1) * kpow(kk(oct), (expo(oct, c.depth as int) - 1) as nat),
    decreases c.row_len() - i,
{
    let bound = oct_bound(oct);
    let kb = kk(oct);
    let e = expo(oct, c.depth as int);
    let d = c.depth as int;
    let ll = c.row_len();
    let pflag: int = if prev == Some(TileClass::Wall) {
        1
    } else {
        0
    };
    c.lemma_row_bounds();
    assert(e == 2 * (bound + 2 - d) && e >= 4) by {
        assert(bound + 2 - d >= 2);
    }
    lemma_kpow_pos(kb, (e - 2) as nat);
    lemma_kpow_pos(kb, (e - 1) as nat);
    lemma_kpow_pos(kb, e);
    assert(kpow(kb, (e - 1) as nat) == kb * kpow(kb, (e - 2) as nat));
    assert(kpow(kb, e) == kb * kpow(kb, (e - 1) as nat));
    let p2 = kpow(kb, (e - 2) as nat) as int;
    let p1 = kpow(kb, (e - 1) as nat) as int;
    let p0 = kpow(kb, e) as int;
    if i >= ll {
        if prev == Some(TileClass::Floor) {
            let nx = c.next_spec();
            assert(nx.wf());
            nx.lemma_row_bounds();
            assert(expo(oct, nx.depth as int) == (e - 2) as nat);
            let pushes = scan_row(floor, oct, c, i, prev).1;
            assert(pushes =~= seq![nx]);
            lemma_msum_single(oct, nx);
            assert(mcol(oct, nx) == p2 * (nx.row_len() + 1));
            assert(nx.row_len() + 1 <= d + 3 <= bound + 3 == kb);
            assert(p2 * (nx.row_len() + 1) <= p1) by (nonlinear_arith)
                requires
                    p2 >= 1,
                    0 <= nx.row_len() + 1 <= kb as int,
                    p1 == kb as int * p2,
            ;
            assert(msum(oct, pushes) <= p1);
        } else {
            let pushes = scan_row(floor, oct, c, i, prev).1;
            assert(pushes =~= Seq::<Col>::empty());
        }
        assert(ll - i + 1 >= 1);
        assert((ll - i + 1) * p1 >= 1 * p1 && p0 * (ll - i + pflag) >= 0) by (nonlinear_arith)
            requires
                p1 >= 1,
                p0 >= 1,
                ll - i + 1 >= 1,
                pflag >= 0,
                ll - i >= 0,
        ;
    } else {
        let rel = c.row_pts()[i];
        assert(rel.x == c.depth && rel.y == c.lower() + i && rel.y <= c.depth);
        let curr = class_of(floor, oct, rel);
        if curr == TileClass::Floor {
            lemma_abs_ok_depth(oct, rel);
        }
        if prev == Some(TileClass::Floor) && curr == TileClass::Wall {
            // A deeper, top-tightened push, then the rest of the row after
            // a wall.
            assert(rel.y >= 1);
            let push = c.top_slope_spec(rel).next_spec();
            assert(push.wf()) by {
                assert(2 * rel.y - 1 <= 2 * rel.x);
            }
            push.lemma_row_bounds();
            assert(push.depth == d + 1 <= bound + 1);
            assert(expo(oct, push.depth as int) == (e - 2) as nat);
            assert(mcol(oct, push) == p2 * (push.row_len() + 1));
            assert(push.row_len() + 1 <= d + 3 <= kb as int);
            assert(mcol(oct, push) <= p1) by (nonlinear_arith)
                requires
                    mcol(oct, push) == p2 * (push.row_len() + 1),
                    p2 >= 1,
                    0 <= push.row_len() + 1 <= kb as int,
                    p1 == kb as int * p2,
            ;
            lemma_scan_row_measure(floor, oct, c, i + 1, Some(curr));
            let rest = scan_row(floor, oct, c, i + 1, Some(curr));
            let whole = scan_row(floor, oct, c, i, prev);
            assert(whole.1 == seq![push] + rest.1);
            lemma_msum_add(oct, seq![push], rest.1);
            lemma_msum_single(oct, push);
            assert(msum(oct, rest.1) <= p0 * (ll - i) + (ll - i) * p1);
            assert(msum(oct, whole.1) <= p0 * (ll - i) + (ll - i + 1) * p1) by (nonlinear_arith)
                requires
                    msum(oct, whole.1) == mcol(oct, push) + msum(oct, rest.1),
                    mcol(oct, push) <= p1,
                    msum(oct, rest.1) <= p0 * (ll - i) + (ll - i) * p1,
                    0 <= ll - i,
            ;
        } else if prev == Some(TileClass::Wall) && curr == TileClass::Floor {
            // A same-depth rescan from this tile upward; the row is
            // abandoned.
            assert(rel.y >= 1);
            let push = c.bottom_slope_spec(rel);
            assert(push.wf()) by {
                assert(1 <= 2 * rel.y - 1 <= 2 * MAX_DEPTH + 1);
            }
            lemma_bottom_lower(c, rel);
            assert(push.row_len() == ll - i);
            let whole = scan_row(floor, oct, c, i, prev);
            assert(whole.1 =~= seq![push]);
            lemma_msum_single(oct, push);
            assert(msum(oct, whole.1) == mcol(oct, push));
            assert(expo(oct, push.depth as int) == e);
            assert(mcol(oct, push) == p0 * (ll - i + 1));
            assert((ll - i + 1) * p1 >= 0) by (nonlinear_arith)
                requires
                    p1 >= 1,
                    ll - i + 1 >= 1,
            ;
        } else {
            // No transition: the rest of the row with this tile as the new
            // previous class.
            lemma_scan_row_measure(floor, oct, c, i + 1, Some(curr));
            let rest = scan_row(floor, oct, c, i + 1, Some(curr));
            let whole = scan_row(floor, oct, c, i, prev);
            assert(whole.1 == rest.1);
            let wflag: int = if curr == TileClass::Wall {
                1
            } else {
                0
            };
            assert(msum(oct, rest.1) <= p0 * (ll - i - 1 + wflag) + (ll - i) * p1);
            assert(msum(oct, whole.1) <= p0 * (ll - i + pflag) + (ll - i + 1) * p1)
                by (nonlinear_arith)
                requires
                    msum(oct, whole.1) <= p0 * (ll - i - 1 + wflag) + (ll - i) * p1,
                    wflag <= 1,
                    pflag >= 0,
                    0 <= ll - i,
                    p0 >= 1,
                    p1 >= 1,
            ;
        }
    }
}

/// The floor predicate of a grid, as one mathematical function.
pub open spec fn grid_floor<G: Grid>(grid: &G) -> spec_fn(Point) -> bool {
    |p: Point| grid.floor(p)
}

/// An octant scan's report with a prefix in front, where there is one.
spec fn with_prefix(s: Seq<Point>, o: Option<Seq<Point>>) -> Option<Seq<Point>> {
    match o {
        Some(t) => Some(s + t),
        None => None::<Seq<Point>>,
    }
}

/// One pop strictly shrinks the measure: what a column's row pushes weighs
/// less than the column itself.
proof fn lemma_pop_measure(floor: spec_fn(Point) -> bool, oct: Octant, c: Col)
    requires
        c.wf(),
        c.depth <= oct_bound(oct) + 1,
    ensures
        stack_wf(oct, scan_row(floor, oct, c, 0, None).1),
        msum(oct, scan_row(floor, oct, c, 0, None).1) < mcol(oct, c),
{
    let kb = kk(oct);
    let e = expo(oct, c.depth as int);
    let ll = c.row_len();
    if c.depth <= oct_bound(oct) {
        lemma_scan_row_measure(floor, oct, c, 0, None);
        c.lemma_row_bounds();
        assert(e >= 4);
        let p1 = kpow(kb, (e - 1) as nat) as int;
        let p0 = kpow(kb, e) as int;
        lemma_kpow_pos(kb, (e - 1) as nat);
        assert(p0 == kb as int * p1);
        assert(ll + 1 < kb as int);
        assert(mcol(oct, c) == p0 * (ll + 1));
        assert(p0 * ll + (ll + 1) * p1 < p0 * (ll + 1)) by (nonlinear_arith)
            requires
                p1 >= 1,
                p0 == kb as int * p1,
                0 <= ll,
                ll + 1 < kb as int,
        ;
    } else {
        lemma_scan_row_dead(floor, oct, c, 0, None);
        lemma_kpow_pos(kb, e);
        assert(mcol(oct, c) == kpow(kb, e) * ((c.row_len() + 1) as nat));
        assert(mcol(oct, c) >= 1) by (nonlinear_arith)
            requires
                kpow(kb, e) >= 1,
                c.row_len() + 1 >= 1,
                mcol(oct, c) == kpow(kb, e) as int * (c.row_len() + 1),
        ;
    }
}

/// Over a mirrored, bounded map whose origin keeps a margin to the grid
/// edge, opposite sectors scan one column's row in lockstep: they push the
/// same columns, and their reports are mutual reflections.
proof fn lemma_scan_row_mirror(
    floor: spec_fn(Point) -> bool,
    origin: Point,
    b: int,
    sec: OctSection,
    c: Col,
    i: int,
    prev: Option<TileClass>,
)
    requires
        mirrored_floor(floor, origin),
        floor_within(floor, origin, b),
        margin_ok(origin, b),
        0 <= b,
        c.wf(),
        c.depth <= b + 1,
        0 <= i <= c.row_len(),
        prev is Some ==> i >= 1,
        prev == Some(TileClass::Floor) ==> c.depth <= b,
    ensures
        ({
            let o1 = Octant { origin, section: sec };
            let o2 = Octant { origin, section: mirror_sec(sec) };
            let r1 = scan_row(floor, o1, c, i, prev);
            let r2 = scan_row(floor, o2, c, i, prev);
            &&& r2.1 == r1.1
            &&& r2.0 == r1.0.map_values(|p: Point| reflect_pt(origin, p))
            &&& forall|k: int|
                0 <= k < r1.1.len() ==> (#[trigger] r1.1[k]).wf() && r1.1[k].depth <= b + 1
        }),
    decreases c.row_len() - i,
{
    let o1 = Octant { origin, section: sec };
    let o2 = Octant { origin, section: mirror_sec(sec) };
    let r1 = scan_row(floor, o1, c, i, prev);
    let r2 = scan_row(floor, o2, c, i, prev);
    let f = |p: Point| reflect_pt(origin, p);
    c.lemma_row_bounds();
    assert(c.depth <= oct_bound(o1)) by {
        assert(oct_bound(o1) >= b + 1);
    }
    if i >= c.row_len() {
        if prev == Some(TileClass::Floor) {
            assert(r1.1 =~= seq![c.next_spec()] && r2.1 =~= seq![c.next_spec()]);
            assert(c.next_spec().wf() && c.next_spec().depth <= b + 1);
        } else {
            assert(r1.1 =~= Seq::<Col>::empty() && r2.1 =~= Seq::<Col>::empty());
        }
        assert(r1.0 =~= Seq::<Point>::empty() && r2.0 =~= Seq::<Point>::empty());
        assert(r2.0 =~= r1.0.map_values(f));
    } else {
        let rel = c.row_pts()[i];
        assert(rel.x == c.depth && rel.y == c.lower() + i && rel.y <= c.depth);
        lemma_class_mirror(floor, origin, sec, c, rel);
        let curr = class_of(floor, o1, rel);
        assert(curr == class_of(floor, o2, rel));
        // Both reflections of the tile land on the grid: the margin covers
        // every offset the row can reach.
        assert(o1.abs_ok(rel) && o2.abs_ok(rel)) by {
            assert(rel.y <= rel.x <= b + 1);
        }
        assert(mark_at(floor, o2, c, rel) == mark_at(floor, o1, c, rel).map_values(f));
        if curr == TileClass::Floor {
            // A floor tile here keeps the depth within the bound.
            let (x1, y1) = o1.abs_spec(rel);
            assert(floor_at(floor, origin, x1 - origin.x, y1 - origin.y));
            assert(c.depth <= b) by {
                assert(rel.y <= rel.x);
            }
        }
        if prev == Some(TileClass::Floor) && curr == TileClass::Wall {
            lemma_scan_row_mirror(floor, origin, b, sec, c, i + 1, Some(curr));
            let rest1 = scan_row(floor, o1, c, i + 1, Some(curr));
            let rest2 = scan_row(floor, o2, c, i + 1, Some(curr));
            let push = c.top_slope_spec(rel).next_spec();
            assert(push.wf() && push.depth <= b + 1) by {
                assert(rel.y >= 1 && 2 * rel.y - 1 <= 2 * rel.x);
            }
            assert(r1.1 == seq![push] + rest1.1 && r2.1 == seq![push] + rest2.1);
            assert(r2.0 =~= r1.0.map_values(f)) by {
                assert(r1.0 == mark_at(floor, o1, c, rel) + rest1.0);
                assert(r2.0 == mark_at(floor, o2, c, rel) + rest2.0);
            }
            assert(forall|k: int|
                0 <= k < r1.1.len() ==> (#[trigger] r1.1[k]).wf() && r1.1[k].depth <= b + 1) by {
                assert(forall|k: int| 1 <= k < r1.1.len() ==> r1.1[k] == rest1.1[k - 1]);
                assert(r1.1[0] == push);
            }
        } else if prev == Some(TileClass::Wall) && curr == TileClass::Floor {
            let push = c.bottom_slope_spec(rel);
            assert(push.wf() && push.depth <= b + 1) by {
                assert(rel.y >= 1 && 1 <= 2 * rel.y - 1 <= 2 * MAX_DEPTH + 1);
            }
            assert(r1.1 =~= seq![push] && r2.1 =~= seq![push]);
            assert(r2.0 =~= r1.0.map_values(f)) by {
                assert(r1.0 == mark_at(floor, o1, c, rel));
                assert(r2.0 == mark_at(floor, o2, c, rel));
            }
        } else {
            lemma_scan_row_mirror(floor, origin, b, sec, c, i + 1, Some(curr));
            let rest1 = scan_row(floor, o1, c, i + 1, Some(curr));
            let rest2 = scan_row(floor, o2, c, i + 1, Some(curr));
            assert(r1.1 == rest1.1 && r2.1 == rest2.1);
            assert(r2.0 =~= r1.0.map_values(f)) by {
                assert(r1.0 == mark_at(floor, o1, c, rel) + rest1.0);
                assert(r2.0 == mark_at(floor, o2, c, rel) + rest2.0);
            }
        }
        assert(r2.0 == r1.0.map_values(f));
    }
}

/// Over a mirrored, bounded map, opposite sectors scan a whole stack in
/// lockstep: under any one fuel both finish or neither does, and their
/// reports are mutual reflections.
proof fn lemma_scan_stack_mirror(
    floor: spec_fn(Point) -> bool,
    origin: Point,
    b: int,
    sec: OctSection,
    s: Seq<Col>,
    fuel: nat,
)
    requires
        mirrored_floor(floor, origin),
        floor_within(floor, origin, b),
        margin_ok(origin, b),
        0 <= b,
        forall|k: int| 0 <= k < s.len() ==> (#[trigger] s[k]).wf() && s[k].depth <= b + 1,
    ensures
        scan_stack(floor, Octant { origin, section: mirror_sec(sec) }, s, fuel) == mirror_opt(
            origin,
            scan_stack(floor, Octant { origin, section: sec }, s, fuel),
        ),
    decreases fuel,
{
    let o1 = Octant { origin, section: sec };
    let o2 = Octant { origin, section: mirror_sec(sec) };
    if s.len() == 0 {
        assert(Seq::<Point>::empty().map_values(|p: Point| reflect_pt(origin, p)) =~= Seq::<
            Point,
        >::empty());
    } else if fuel == 0 {
    } else {
        let c = s.last();
        assert(c.wf() && c.depth <= b + 1) by {
            assert(s[s.len() - 1].wf());
        }
        lemma_scan_row_mirror(floor, origin, b, sec, c, 0, None);
        let rp1 = scan_row(floor, o1, c, 0, None);
        let rp2 = scan_row(floor, o2, c, 0, None);
        assert(rp2.1 == rp1.1);
        let s2 = s.drop_last() + rp1.1;
        assert(forall|k: int| 0 <= k < s2.len() ==> (#[trigger] s2[k]).wf() && s2[k].depth <= b
            + 1) by {
            assert(forall|k: int| 0 <= k < s.len() - 1 ==> s2[k] == s[k]);
            assert(forall|k: int|
                s.len() - 1 <= k < s2.len() ==> s2[k] == rp1.1[k - (s.len() - 1)]);
        }
        lemma_scan_stack_mirror(floor, origin, b, sec, s2, (fuel - 1) as nat);
        match scan_stack(floor, o1, s2, (fuel - 1) as nat) {
            Some(rest1) => {
                let f = |p: Point| reflect_pt(origin, p);
                assert(scan_stack(floor, o2, s2, (fuel - 1) as nat) == Some(
                    rest1.map_values(f),
                ));
                assert(scan_stack(floor, o1, s, fuel) == Some(rp1.0 + rest1));
                assert(scan_stack(floor, o2, s, fuel) == Some(
                    rp1.0.map_values(f) + rest1.map_values(f),
                ));
                assert(rp1.0.map_values(f) + rest1.map_values(f) =~= (rp1.0
                    + rest1).map_values(f));
            },
            None => {},
        }
    }
}

/// A sequence's reflection holds the reflection of each of its points.
proof fn lemma_map_contains(origin: Point, a: Seq<Point>, m: Seq<Point>)
    requires
        m == a.map_values(|p: Point| reflect_pt(origin, p)),
    ensures
        forall|q: Point| #[trigger] a.contains(q) ==> m.contains(reflect_pt(origin, q)),
{
    assert forall|q: Point| #[trigger] a.contains(q) implies m.contains(
        reflect_pt(origin, q),
    ) by {
        let j = choose|j: int| 0 <= j < a.len() && a[j] == q;
        assert(m[j] == reflect_pt(origin, q));
    }
}

/// Whatever a slice of a sequence holds, the sequence holds.
proof fn lemma_contains_at(t: Seq<Point>, seg: Seq<Point>, off: int)
    requires
        0 <= off,
        off + seg.len() <= t.len(),
        forall|j: int| 0 <= j < seg.len() ==> t[off + j] == #[trigger] seg[j],
    ensures
        forall|q: Point| #[trigger] seg.contains(q) ==> t.contains(q),
{
    assert forall|q: Point| #[trigger] seg.contains(q) implies t.contains(q) by {
        let j = choose|j: int| 0 <= j < seg.len() && seg[j] == q;
        assert(t[off + j] == q);
    }
}

/// Visibility is symmetric under point reflection through the origin, for a
/// mirrored map layout: where the floor is point-symmetric around the
/// origin, lies within `b` tiles of it on both axes, and the origin keeps a
/// margin of `b + 1` tiles to the grid edge, the reflection of every
/// reported point is reported too.
#[verifier::rlimit(100)]
pub proof fn lemma_symmetric_sight(
    floor: spec_fn(Point) -> bool,
    origin: Point,
    b: int,
    r: Seq<Point>,
)
    requires
        compute_post(floor, origin, r),
        0 <= b,
        margin_ok(origin, b),
        mirrored_floor(floor, origin),
        floor_within(floor, origin, b),
    ensures
        forall|k: int| 0 <= k < r.len() ==> r.contains(reflect_pt(origin, #[trigger] r[k])),
{
    let fuel = choose|f: nat| scan_from(floor, origin, 0, f) == Some(r.skip(1));
    let tail = r.skip(1);
    let st = seq![Col::first_spec()];
    let octs = Octant::octants(origin);
    assert(forall|k: int| 0 <= k < st.len() ==> (#[trigger] st[k]).wf() && st[k].depth <= b + 1);
    // Walk the eight octants out of the scan, one match arm at a time.
    assert(scan_from(floor, origin, 0, fuel) is Some);
    assert(scan_stack(floor, octs[0], st, fuel) is Some && scan_from(floor, origin, 1, fuel)
        is Some);
    assert(scan_stack(floor, octs[1], st, fuel) is Some && scan_from(floor, origin, 2, fuel)
        is Some);
    assert(scan_stack(floor, octs[2], st, fuel) is Some && scan_from(floor, origin, 3, fuel)
        is Some);
    assert(scan_stack(floor, octs[3], st, fuel) is Some && scan_from(floor, origin, 4, fuel)
        is Some);
    assert(scan_stack(floor, octs[4], st, fuel) is Some && scan_from(floor, origin, 5, fuel)
        is Some);
    assert(scan_stack(floor, octs[5], st, fuel) is Some && scan_from(floor, origin, 6, fuel)
        is Some);
    assert(scan_stack(floor, octs[6], st, fuel) is Some && scan_from(floor, origin, 7, fuel)
        is Some);
    assert(scan_stack(floor, octs[7], st, fuel) is Some && scan_from(floor, origin, 8, fuel)
        == Some(Seq::<Point>::empty()));
    let m0 = choose|m: Seq<Point>| scan_stack(floor, octs[0], st, fuel) == Some(m);
    let m1 = choose|m: Seq<Point>| scan_stack(floor, octs[1], st, fuel) == Some(m);
    let m2 = choose|m: Seq<Point>| scan_stack(floor, octs[2], st, fuel) == Some(m);
    let m3 = choose|m: Seq<Point>| scan_stack(floor, octs[3], st, fuel) == Some(m);
    let m4 = choose|m: Seq<Point>| scan_stack(floor, octs[4], st, fuel) == Some(m);
    let m5 = choose|m: Seq<Point>| scan_stack(floor, octs[5], st, fuel) == Some(m);
    let m6 = choose|m: Seq<Point>| scan_stack(floor, octs[6], st, fuel) == Some(m);
    let m7 = choose|m: Seq<Point>| scan_stack(floor, octs[7], st, fuel) == Some(m);
    assert(tail == m0 + (m1 + (m2 + (m3 + (m4 + (m5 + (m6 + (m7
        + Seq::<Point>::empty()))))))));
    let flat = m0 + m1 + m2 + m3 + m4 + m5 + m6 + m7;
    assert(tail =~= flat);
    // Opposite sectors report mutual reflections.
    lemma_scan_stack_mirror(floor, origin, b, OctSection::LeftUp, st, fuel);
    lemma_scan_stack_mirror(floor, origin, b, OctSection::RightDown, st, fuel);
    lemma_scan_stack_mirror(floor, origin, b, OctSection::LeftDown, st, fuel);
    lemma_scan_stack_mirror(floor, origin, b, OctSection::RightUp, st, fuel);
    lemma_scan_stack_mirror(floor, origin, b, OctSection::UpLeft, st, fuel);
    lemma_scan_stack_mirror(floor, origin, b, OctSection::DownRight, st, fuel);
    lemma_scan_stack_mirror(floor, origin, b, OctSection::UpRight, st, fuel);
    lemma_scan_stack_mirror(floor, origin, b, OctSection::DownLeft, st, fuel);
    let f = |p: Point| reflect_pt(origin, p);
    assert(m3 == m0.map_values(f) && m0 == m3.map_values(f));
    assert(m2 == m1.map_values(f) && m1 == m2.map_values(f));
    assert(m7 == m4.map_values(f) && m4 == m7.map_values(f));
    assert(m6 == m5.map_values(f) && m5 == m6.map_values(f));
    lemma_map_contains(origin, m0, m3);
    lemma_map_contains(origin, m3, m0);
    lemma_map_contains(origin, m1, m2);
    lemma_map_contains(origin, m2, m1);
    lemma_map_contains(origin, m4, m7);
    lemma_map_contains(origin, m7, m4);
    lemma_map_contains(origin, m5, m6);
    lemma_map_contains(origin, m6, m5);
    // Each octant's report sits at a fixed offset of the whole.
    let l0 = m0.len() as int;
    let l1 = l0 + m1.len();
    let l2 = l1 + m2.len();
    let l3 = l2 + m3.len();
    let l4 = l3 + m4.len();
    let l5 = l4 + m5.len();
    let l6 = l5 + m6.len();
    let l7 = l6 + m7.len();
    assert(tail.len() == l7);
    lemma_contains_at(tail, m0, 0);
    lemma_contains_at(tail, m1, l0);
    lemma_contains_at(tail, m2, l1);
    lemma_contains_at(tail, m3, l2);
    lemma_contains_at(tail, m4, l3);
    lemma_contains_at(tail, m5, l4);
    lemma_contains_at(tail, m6, l5);
    lemma_contains_at(tail, m7, l6);
    assert forall|q: Point| #[trigger] tail.contains(q) implies tail.contains(
        reflect_pt(origin, q),
    ) by {
        let j = choose|j: int| 0 <= j < tail.len() && tail[j] == q;
        if j < l0 {
            assert(m0.contains(q)) by {
                assert(m0[j] == q);
            }
        } else if j < l1 {
            assert(m1.contains(q)) by {
                assert(m1[j - l0] == q);
            }
        } else if j < l2 {
            assert(m2.contains(q)) by {
                assert(m2[j - l1] == q);
            }
        } else if j < l3 {
            assert(m3.contains(q)) by {
                assert(m3[j - l2] == q);
            }
        } else if j < l4 {
            assert(m4.contains(q)) by {
                assert(m4[j - l3] == q);
            }
        } else if j < l5 {
            assert(m5.contains(q)) by {
                assert(m5[j - l4] == q);
            }
        } else if j < l6 {
            assert(m6.contains(q)) by {
                assert(m6[j - l5] == q);
            }
        } else {
            assert(m7.contains(q)) by {
                assert(m7[j - l6] == q);
            }
        }
    }
    // And the origin is its own reflection.
    assert forall|k: int| 0 <= k < r.len() implies r.contains(
        reflect_pt(origin, #[trigger] r[k]),
    ) by {
        if k == 0 {
            assert(reflect_pt(origin, origin) == origin);
            assert(r.contains(origin)) by {
                assert(r[0] == origin);
            }
        } else {
            let q = r[k];
            assert(tail.contains(q)) by {
                assert(tail[k - 1] == q);
            }
            assert(tail.contains(reflect_pt(origin, q)));
            let j = choose|j: int| 0 <= j < tail.len() && tail[j] == reflect_pt(origin, q);
            assert(r.contains(reflect_pt(origin, q))) by {
                assert(r[j + 1] == reflect_pt(origin, q));
            }
        }
    }
}

/// The first column's row holds exactly the two relative points of depth
/// one.
proof fn lemma_first_row()
    ensures
        Col::first_spec().row_len() == 2,
        Col::first_spec().row_pts()[0] == (Rel { x: 1u32, y: 0u32 }),
        Col::first_spec().row_pts()[1] == (Rel { x: 1u32, y: 1u32 }),
{
    let c = Col::first_spec();
    assert(c.bottom_slope.num * c.depth == 0 && c.top_slope.num * c.depth == 1)
        by (nonlinear_arith)
        requires
            c.bottom_slope.num == 0 && c.top_slope.num == 1 && c.depth == 1,
    ;
    assert(1int / 2int == 0);
    assert((2 * 0 + 1) / (2 * 1) == 0int);
    assert(rhu(0, 1) == (2 * 0 + 1) / (2 * 1));
    assert(rhd(1, 1) == 1);
    assert(c.lower() == rhu(0, 1));
    assert(c.upper() == rhd(1, 1));
}

/// A mark of one octant's scan is a mark of the whole computation.
#[verifier::rlimit(100)]
proof fn lemma_octant_mark_reported(
    floor: spec_fn(Point) -> bool,
    origin: Point,
    r: Seq<Point>,
    i: int,
    q: Point,
)
    requires
        compute_post(floor, origin, r),
        0 <= i < 8,
        forall|fuel: nat|
            (#[trigger] scan_stack(
                floor,
                Octant::octants(origin)[i],
                seq![Col::first_spec()],
                fuel,
            )) is Some ==> scan_stack(
                floor,
                Octant::octants(origin)[i],
                seq![Col::first_spec()],
                fuel,
            )->Some_0.contains(q),
    ensures
        r.contains(q),
{
    let fuel = choose|f: nat| scan_from(floor, origin, 0, f) == Some(r.skip(1));
    let tail = r.skip(1);
    let st = seq![Col::first_spec()];
    let octs = Octant::octants(origin);
    assert(scan_from(floor, origin, 0, fuel) is Some);
    assert(scan_stack(floor, octs[0], st, fuel) is Some && scan_from(floor, origin, 1, fuel)
        is Some);
    assert(scan_stack(floor, octs[1], st, fuel) is Some && scan_from(floor, origin, 2, fuel)
        is Some);
    assert(scan_stack(floor, octs[2], st, fuel) is Some && scan_from(floor, origin, 3, fuel)
        is Some);
    assert(scan_stack(floor, octs[3], st, fuel) is Some && scan_from(floor, origin, 4, fuel)
        is Some);
    assert(scan_stack(floor, octs[4], st, fuel) is Some && scan_from(floor, origin, 5, fuel)
        is Some);
    assert(scan_stack(floor, octs[5], st, fuel) is Some && scan_from(floor, origin, 6, fuel)
        is Some);
    assert(scan_stack(floor, octs[6], st, fuel) is Some && scan_from(floor, origin, 7, fuel)
        is Some);
    assert(scan_stack(floor, octs[7], st, fuel) is Some && scan_from(floor, origin, 8, fuel)
        == Some(Seq::<Point>::empty()));
    let m0 = choose|m: Seq<Point>| scan_stack(floor, octs[0], st, fuel) == Some(m);
    let m1 = choose|m: Seq<Point>| scan_stack(floor, octs[1], st, fuel) == Some(m);
    let m2 = choose|m: Seq<Point>| scan_stack(floor, octs[2], st, fuel) == Some(m);
    let m3 = choose|m: Seq<Point>| scan_stack(floor, octs[3], st, fuel) == Some(m);
    let m4 = choose|m: Seq<Point>| scan_stack(floor, octs[4], st, fuel) == Some(m);
    let m5 = choose|m: Seq<Point>| scan_stack(floor, octs[5], st, fuel) == Some(m);
    let m6 = choose|m: Seq<Point>| scan_stack(floor, octs[6], st, fuel) == Some(m);
    let m7 = choose|m: Seq<Point>| scan_stack(floor, octs[7], st, fuel) == Some(m);
    assert(tail == m0 + (m1 + (m2 + (m3 + (m4 + (m5 + (m6 + (m7
        + Seq::<Point>::empty()))))))));
    let flat = m0 + m1 + m2 + m3 + m4 + m5 + m6 + m7;
    assert(tail =~= flat);
    let l0 = m0.len() as int;
    let l1 = l0 + m1.len();
    let l2 = l1 + m2.len();
    let l3 = l2 + m3.len();
    let l4 = l3 + m4.len();
    let l5 = l4 + m5.len();
    let l6 = l5 + m6.len();
    lemma_contains_at(tail, m0, 0);
    lemma_contains_at(tail, m1, l0);
    lemma_contains_at(tail, m2, l1);
    lemma_contains_at(tail, m3, l2);
    lemma_contains_at(tail, m4, l3);
    lemma_contains_at(tail, m5, l4);
    lemma_contains_at(tail, m6, l5);
    lemma_contains_at(tail, m7, l6);
    assert(tail.contains(q)) by {
        if i == 0 {
            assert(m0.contains(q));
        } else if i == 1 {
            assert(m1.contains(q));
        } else if i == 2 {
            assert(m2.contains(q));
        } else if i == 3 {
            assert(m3.contains(q));
        } else if i == 4 {
            assert(m4.contains(q));
        } else if i == 5 {
            assert(m5.contains(q));
        } else if i == 6 {
            assert(m6.contains(q));
        } else {
            assert(m7.contains(q));
        }
    }
    let j = choose|j: int| 0 <= j < tail.len() && tail[j] == q;
    assert(r.contains(q)) by {
        assert(r[j + 1] == q);
    }
}

/// An octant reports the wall tiles of its own first row, whatever else the
/// map holds.
proof fn lemma_first_row_wall_marked(
    floor: spec_fn(Point) -> bool,
    oct: Octant,
    rel: Rel,
    fuel: nat,
)
    requires
        rel == (Rel { x: 1u32, y: 0u32 }) || rel == (Rel { x: 1u32, y: 1u32 }),
        oct.abs_ok(rel),
        !floor(oct.abs_pt(rel)),
        scan_stack(floor, oct, seq![Col::first_spec()], fuel) is Some,
    ensures
        scan_stack(floor, oct, seq![Col::first_spec()], fuel)->Some_0.contains(oct.abs_pt(rel)),
{
    let st = seq![Col::first_spec()];
    let c = Col::first_spec();
    lemma_first_row();
    assert(st.len() == 1 && fuel >= 1);
    assert(st.last() == c);
    let rp = scan_row(floor, oct, c, 0, None);
    let m = scan_stack(floor, oct, st, fuel)->Some_0;
    assert(m == rp.0 + scan_stack(floor, oct, st.drop_last() + rp.1, (fuel - 1) as nat)->Some_0);
    let rel0 = c.row_pts()[0];
    let rel1 = c.row_pts()[1];
    let curr0 = class_of(floor, oct, rel0);
    let rest1 = scan_row(floor, oct, c, 1, Some(curr0));
    assert(rp.0 == mark_at(floor, oct, c, rel0) + rest1.0);
    if rel == rel0 {
        assert(mark_at(floor, oct, c, rel0) == seq![oct.abs_pt(rel)]);
        assert(rp.0[0] == oct.abs_pt(rel));
        assert(m[0] == oct.abs_pt(rel));
        assert(m.contains(oct.abs_pt(rel)));
    } else {
        assert(class_of(floor, oct, rel1) == TileClass::Wall);
        assert(mark_at(floor, oct, c, rel1) == seq![oct.abs_pt(rel)]);
        // Whatever the first tile was, the wall's own mark leads the rest
        // of the row: a wall never takes the abandon-the-row branch.
        assert(rest1.0[0] == oct.abs_pt(rel) && rest1.0.len() >= 1) by {
            assert(rest1.0 == mark_at(floor, oct, c, rel1) + scan_row(
                floor,
                oct,
                c,
                2,
                Some(TileClass::Wall),
            ).0);
        }
        let k = mark_at(floor, oct, c, rel0).len() as int;
        assert(rp.0[k] == oct.abs_pt(rel));
        assert(m[k] == oct.abs_pt(rel));
        assert(m.contains(oct.abs_pt(rel))) by {
            assert(0 <= k < m.len());
        }
    }
}

/// A wall tile adjacent to the origin is always reported visible, whatever
/// else the map holds: every such tile stands in the first row of one of
/// the eight octants, and a scanned wall is always marked.
pub proof fn lemma_adjacent_wall_visible(
    floor: spec_fn(Point) -> bool,
    origin: Point,
    r: Seq<Point>,
    q: Point,
)
    requires
        compute_post(floor, origin, r),
        q != origin,
        origin.x - 1 <= q.x <= origin.x + 1,
        origin.y - 1 <= q.y <= origin.y + 1,
        !floor(q),
    ensures
        r.contains(q),
{
    let octs = Octant::octants(origin);
    let i: int = if q.x < origin.x {
        if q.y <= origin.y {
            0int
        } else {
            1int
        }
    } else if q.x > origin.x {
        if q.y <= origin.y {
            2int
        } else {
            3int
        }
    } else {
        if q.y < origin.y {
            4int
        } else {
            6int
        }
    };
    let rel = if q.x == origin.x || q.y == origin.y {
        Rel { x: 1u32, y: 0u32 }
    } else {
        Rel { x: 1u32, y: 1u32 }
    };
    assert(octs[i].abs_ok(rel) && octs[i].abs_pt(rel) == q);
    assert forall|fuel: nat|
        (#[trigger] scan_stack(floor, octs[i], seq![Col::first_spec()], fuel))
            is Some implies scan_stack(floor, octs[i], seq![Col::first_spec()], fuel)
        ->Some_0.contains(q) by {
        lemma_first_row_wall_marked(floor, octs[i], rel, fuel);
    }
    lemma_octant_mark_reported(floor, origin, r, i, q);
}

// Completeness over an open room

/// The floor is exactly an axis-aligned rectangle of tiles, walls all
/// around.
pub open spec fn rect_floor(
    floor: spec_fn(Point) -> bool,
    x0: int,
    y0: int,
    x1: int,
    y1: int,
) -> bool {
    forall|p: Point| #[trigger] floor(p) == (x0 <= p.x <= x1 && y0 <= p.y <= y1)
}

/// The room's bounds stand on the grid and hold the origin.
pub open spec fn rect_around(origin: Point, x0: int, y0: int, x1: int, y1: int) -> bool {
    &&& 0 <= x0 <= origin.x <= x1 <= u16::MAX
    &&& 0 <= y0 <= origin.y <= y1 <= u16::MAX
}

/// How deep an octant's scan axis runs before it leaves the room.
spec fn prim_extent(oct: Octant, x0: int, y0: int, x1: int, y1: int) -> int {
    match oct.section {
        OctSection::LeftUp => oct.origin.x - x0,
        OctSection::LeftDown => oct.origin.x - x0,
        OctSection::RightUp => x1 - oct.origin.x,
        OctSection::RightDown => x1 - oct.origin.x,
        OctSection::UpLeft => oct.origin.y - y0,
        OctSection::UpRight => oct.origin.y - y0,
        OctSection::DownLeft => y1 - oct.origin.y,
        OctSection::DownRight => y1 - oct.origin.y,
    }
}

/// How far an octant's lateral offset runs before it leaves the room.
spec fn lat_extent(oct: Octant, x0: int, y0: int, x1: int, y1: int) -> int {
    match oct.section {
        OctSection::LeftUp => oct.origin.y - y0,
        OctSection::LeftDown => y1 - oct.origin.y,
        OctSection::RightUp => oct.origin.y - y0,
        OctSection::RightDown => y1 - oct.origin.y,
        OctSection::UpLeft => oct.origin.x - x0,
        OctSection::UpRight => x1 - oct.origin.x,
        OctSection::DownLeft => oct.origin.x - x0,
        OctSection::DownRight => x1 - oct.origin.x,
    }
}

/// Over a rectangular floor, a relative point is floor exactly when its
/// depth and lateral offset both stay within the room's extents.
proof fn lemma_rect_class(
    floor: spec_fn(Point) -> bool,
    oct: Octant,
    x0: int,
    y0: int,
    x1: int,
    y1: int,
    rel: Rel,
)
    requires
        rect_floor(floor, x0, y0, x1, y1),
        rect_around(oct.origin, x0, y0, x1, y1),
    ensures
        class_of(floor, oct, rel) == if rel.x <= prim_extent(oct, x0, y0, x1, y1) && rel.y
            <= lat_extent(oct, x0, y0, x1, y1) {
            TileClass::Floor
        } else {
            TileClass::Wall
        },
{
    if oct.abs_ok(rel) {
        assert(floor(oct.abs_pt(rel)) == (x0 <= oct.abs_pt(rel).x <= x1 && y0 <= oct.abs_pt(
            rel,
        ).y <= y1));
    }
}

/// The state a column of an open-room scan keeps: the interval starts at
/// slope zero, and its top is either still the full slope one or lies at
/// least half a tile above the room's lateral edge at this depth.
spec fn chain_inv(c: Col, ym: int) -> bool {
    &&& c.wf()
    &&& c.bottom_slope == (Slope { num: 0u32, den: 1u32 })
    &&& (c.top_slope == (Slope { num: 1u32, den: 1u32 }) || 2 * c.top_slope.num * c.depth >= (2
        * ym + 1) * c.top_slope.den)
}

/// A chained column's row starts at lateral offset zero and reaches at
/// least to the room's lateral edge or the diagonal, whichever is nearer.
proof fn lemma_chain_bounds(c: Col, ym: int)
    requires
        chain_inv(c, ym),
        0 <= ym,
    ensures
        c.lower() == 0,
        c.upper() >= if c.depth <= ym {
            c.depth as int
        } else {
            ym
        },
        c.row_len() == c.upper() + 1,
{
    let d = c.depth as int;
    let tn = c.top_slope.num as int;
    let td = c.top_slope.den as int;
    assert(c.bottom_slope.num * c.depth == 0) by (nonlinear_arith)
        requires
            c.bottom_slope.num == 0,
    ;
    assert(1int / 2int == 0);
    assert((2 * 0 + 1) / (2 * 1) == 0int);
    assert(rhu(0, 1) == (2 * 0 + 1) / (2 * 1));
    assert(c.lower() == rhu(0, 1));
    c.lemma_row_bounds();
    lemma_rhd_char(tn * d, td);
    let u = c.upper();
    if c.top_slope == (Slope { num: 1u32, den: 1u32 }) {
        assert(u >= d) by (nonlinear_arith)
            requires
                2 * (tn * d) <= 2 * td * u + td,
                tn == 1 && td == 1,
        ;
    } else {
        assert(2 * tn * d >= (2 * ym + 1) * td);
        assert(u >= if d <= ym {
            d
        } else {
            ym
        }) by (nonlinear_arith)
            requires
                2 * (tn * d) <= 2 * td * u + td,
                2 * tn * d >= (2 * ym + 1) * td,
                1 <= td,
                0 <= ym,
        ;
    }
}

/// The column an open-room chain continues with: one depth deeper, the top
/// tightened to the room's lateral edge once the row has reached past it.
spec fn chain_next(c: Col, ym: int) -> Col {
    if c.upper() > ym {
        c.top_slope_spec(Rel { x: c.depth, y: (ym + 1) as u32 }).next_spec()
    } else {
        c.next_spec()
    }
}

/// Over a rectangular floor, one chained column's row reports every floor
/// tile it covers and pushes exactly the chain's next column while the
/// room still goes on.
proof fn lemma_rect_row(
    floor: spec_fn(Point) -> bool,
    oct: Octant,
    x0: int,
    y0: int,
    x1: int,
    y1: int,
    c: Col,
    i: int,
    prev: Option<TileClass>,
)
    requires
        rect_floor(floor, x0, y0, x1, y1),
        rect_around(oct.origin, x0, y0, x1, y1),
        chain_inv(c, lat_extent(oct, x0, y0, x1, y1)),
        0 <= i <= c.row_len(),
        prev is None ==> i == 0,
        prev is Some ==> i >= 1 && prev == Some(
            class_of(floor, oct, c.row_pts()[i - 1]),
        ),
    ensures
        forall|j: int|
            i <= j < c.row_len() && class_of(floor, oct, #[trigger] c.row_pts()[j])
                == TileClass::Floor ==> scan_row(floor, oct, c, i, prev).0.contains(
                oct.abs_pt(c.row_pts()[j]),
            ),
        ({
            let xm = prim_extent(oct, x0, y0, x1, y1);
            let ym = lat_extent(oct, x0, y0, x1, y1);
            if c.depth <= xm && prev != Some(TileClass::Wall) {
                scan_row(floor, oct, c, i, prev).1 == seq![chain_next(c, ym)] && chain_inv(
                    chain_next(c, ym),
                    ym,
                ) && chain_next(c, ym).depth == c.depth + 1
            } else {
                scan_row(floor, oct, c, i, prev).1 == Seq::<Col>::empty()
            }
        }),
    decreases c.row_len() - i,
{
    let xm = prim_extent(oct, x0, y0, x1, y1);
    let ym = lat_extent(oct, x0, y0, x1, y1);
    let d = c.depth as int;
    assert(0 <= ym && 0 <= xm);
    lemma_chain_bounds(c, ym);
    c.lemma_row_bounds();
    let whole = scan_row(floor, oct, c, i, prev);
    if i >= c.row_len() {
        assert(i >= 1);
        if prev == Some(TileClass::Floor) {
            // The row ended on floor, so its last tile sat at or before
            // the lateral edge and the interval carries over unchanged.
            let last = c.row_pts()[i - 1];
            lemma_rect_class(floor, oct, x0, y0, x1, y1, last);
            assert(last.y == c.upper() && last.y <= ym && d <= xm);
            assert(c.upper() <= ym);
            assert(chain_next(c, ym) == c.next_spec());
            assert(whole.1 == seq![c.next_spec()]);
            assert(chain_inv(c.next_spec(), ym)) by {
                assert(c.next_spec().depth == d + 1 <= MAX_DEPTH);
                if c.top_slope != (Slope { num: 1u32, den: 1u32 }) {
                    assert(2 * c.top_slope.num * (d + 1) >= (2 * ym + 1) * c.top_slope.den)
                        by (nonlinear_arith)
                        requires
                            2 * c.top_slope.num * d >= (2 * ym + 1) * c.top_slope.den,
                            c.top_slope.num >= 0,
                            d >= 1,
                    ;
                }
            }
        } else {
            assert(whole.1 =~= Seq::<Col>::empty());
            if prev != Some(TileClass::Wall) {
                // A row never ends without a class: its length is at least
                // one.
                assert(false);
            }
        }
    } else {
        let rel = c.row_pts()[i];
        assert(rel.x == c.depth && rel.y == i && rel.y <= c.depth);
        lemma_rect_class(floor, oct, x0, y0, x1, y1, rel);
        let curr = class_of(floor, oct, rel);
        if i >= 1 {
            lemma_rect_class(floor, oct, x0, y0, x1, y1, c.row_pts()[i - 1]);
        }
        if prev == Some(TileClass::Wall) && curr == TileClass::Floor {
            // A wall never has floor above it in an open room's row.
            assert(false);
        }
        lemma_rect_row(floor, oct, x0, y0, x1, y1, c, i + 1, Some(curr));
        let rest = scan_row(floor, oct, c, i + 1, Some(curr));
        if curr == TileClass::Floor {
            // The tile lies within the interval, boundaries included, so
            // it is reported.
            assert(c.is_symmetric_spec(rel)) by {
                assert(rel.y * c.bottom_slope.den >= c.bottom_slope.num * c.depth)
                    by (nonlinear_arith)
                    requires
                        c.bottom_slope.num == 0 && c.bottom_slope.den == 1,
                        rel.y >= 0,
                ;
                if c.top_slope == (Slope { num: 1u32, den: 1u32 }) {
                    assert(rel.y * c.top_slope.den <= c.top_slope.num * c.depth)
                        by (nonlinear_arith)
                        requires
                            c.top_slope.num == 1 && c.top_slope.den == 1,
                            rel.y <= c.depth,
                    ;
                } else {
                    assert(rel.y * c.top_slope.den <= c.top_slope.num * c.depth)
                        by (nonlinear_arith)
                        requires
                            2 * c.top_slope.num * c.depth >= (2 * ym + 1) * c.top_slope.den,
                            rel.y <= ym,
                            c.top_slope.den >= 1,
                    ;
                }
            }
            assert(mark_at(floor, oct, c, rel) == seq![oct.abs_pt(rel)]);
        }
        if prev == Some(TileClass::Floor) && curr == TileClass::Wall {
            // The one transition of the row: past the lateral edge, the
            // interval tightens to it and the rest of the row is wall.
            assert(i == ym + 1 && d <= xm);
            assert(rest.1 =~= Seq::<Col>::empty());
            let push = c.top_slope_spec(rel).next_spec();
            assert(c.upper() > ym);
            assert(push == chain_next(c, ym));
            assert(whole.1 =~= seq![push]);
            assert(chain_inv(push, ym)) by {
                assert(1 <= rel.y <= c.depth);
                assert(push.top_slope.num == 2 * i - 1 && push.top_slope.den == 2 * d);
                assert(2 * push.top_slope.num * push.depth >= (2 * ym + 1)
                    * push.top_slope.den) by (nonlinear_arith)
                    requires
                        push.top_slope.num == 2 * (ym + 1) - 1,
                        push.top_slope.den == 2 * d,
                        push.depth == d + 1,
                        d >= 1,
                        ym >= 0,
                ;
            }
        } else {
            assert(whole.1 == rest.1);
            if curr == TileClass::Wall && prev != Some(TileClass::Wall) {
                // Floor before a wall is the transition branch above, so
                // here no tile came before this wall: the row starts on
                // wall, which an open room's first offset never does while
                // the room goes on.
                assert(prev is None && i == 0);
                if d <= xm {
                    assert(!(d <= xm && i <= ym));
                    assert(ym < 0);
                    assert(false);
                }
            }
        }
        // Every reported tile of the rest of the row is reported here too.
        assert(whole.0 == mark_at(floor, oct, c, rel) + rest.0);
        lemma_contains_at(whole.0, rest.0, mark_at(floor, oct, c, rel).len() as int);
        assert forall|j: int|
            i <= j < c.row_len() && class_of(floor, oct, #[trigger] c.row_pts()[j])
                == TileClass::Floor implies whole.0.contains(oct.abs_pt(c.row_pts()[j])) by {
            if j == i {
                assert(whole.0[0] == oct.abs_pt(rel));
            } else {
                assert(rest.0.contains(oct.abs_pt(c.row_pts()[j])));
            }
        }
    }
}

/// Over a rectangular floor, an octant's finished scan reports every floor
/// tile of its sector from the chain's current depth on.
proof fn lemma_rect_chain(
    floor: spec_fn(Point) -> bool,
    oct: Octant,
    x0: int,
    y0: int,
    x1: int,
    y1: int,
    c: Col,
    fuel: nat,
)
    requires
        rect_floor(floor, x0, y0, x1, y1),
        rect_around(oct.origin, x0, y0, x1, y1),
        chain_inv(c, lat_extent(oct, x0, y0, x1, y1)),
        scan_stack(floor, oct, seq![c], fuel) is Some,
    ensures
        forall|x: int, y: int|
            c.depth <= x <= prim_extent(oct, x0, y0, x1, y1) && 0 <= y <= lat_extent(
                oct,
                x0,
                y0,
                x1,
                y1,
            ) && y <= x ==> scan_stack(floor, oct, seq![c], fuel)->Some_0.contains(
                #[trigger] oct.abs_pt(Rel { x: x as u32, y: y as u32 }),
            ),
    decreases fuel,
{
    let xm = prim_extent(oct, x0, y0, x1, y1);
    let ym = lat_extent(oct, x0, y0, x1, y1);
    let st = seq![c];
    assert(st.len() == 1 && st.last() == c && fuel >= 1);
    let rp = scan_row(floor, oct, c, 0, None);
    lemma_rect_row(floor, oct, x0, y0, x1, y1, c, 0, None);
    lemma_chain_bounds(c, ym);
    let m = scan_stack(floor, oct, st, fuel)->Some_0;
    let rest = scan_stack(floor, oct, st.drop_last() + rp.1, (fuel - 1) as nat);
    assert(rest is Some && m == rp.0 + rest->Some_0);
    lemma_contains_at(m, rp.0, 0);
    lemma_contains_at(m, rest->Some_0, rp.0.len() as int);
    if c.depth <= xm {
        let c2 = chain_next(c, ym);
        assert(st.drop_last() + rp.1 =~= seq![c2]);
        lemma_rect_chain(floor, oct, x0, y0, x1, y1, c2, (fuel - 1) as nat);
    }
    assert forall|x: int, y: int|
        c.depth <= x <= xm && 0 <= y <= ym && y <= x implies m.contains(
        #[trigger] oct.abs_pt(Rel { x: x as u32, y: y as u32 }),
    ) by {
        if x == c.depth {
            let rel = Rel { x: x as u32, y: y as u32 };
            assert(rel == c.row_pts()[y]) by {
                assert(y <= c.upper());
            }
            lemma_rect_class(floor, oct, x0, y0, x1, y1, rel);
            assert(rp.0.contains(oct.abs_pt(rel)));
        } else {
            let c2 = chain_next(c, ym);
            assert(rest->Some_0.contains(oct.abs_pt(Rel { x: x as u32, y: y as u32 })));
        }
    }
}

/// No false negatives in an open room: over a floor that is exactly a
/// rectangle of tiles holding the origin, every tile of the rectangle is
/// reported visible.
pub proof fn lemma_open_room_visible(
    floor: spec_fn(Point) -> bool,
    origin: Point,
    r: Seq<Point>,
    x0: int,
    y0: int,
    x1: int,
    y1: int,
)
    requires
        compute_post(floor, origin, r),
        rect_floor(floor, x0, y0, x1, y1),
        rect_around(origin, x0, y0, x1, y1),
    ensures
        forall|p: Point| x0 <= p.x <= x1 && y0 <= p.y <= y1 ==> #[trigger] r.contains(p),
{
    let octs = Octant::octants(origin);
    assert forall|p: Point| x0 <= p.x <= x1 && y0 <= p.y <= y1 implies #[trigger] r.contains(
        p,
    ) by {
        if p == origin {
            assert(r.contains(origin)) by {
                assert(r[0] == origin);
            }
        } else {
            let dx = p.x - origin.x;
            let dy = p.y - origin.y;
            let ax = if dx < 0 {
                -dx
            } else {
                dx
            };
            let ay = if dy < 0 {
                -dy
            } else {
                dy
            };
            let i: int = if ax >= ay {
                if dx <= 0 {
                    if dy <= 0 {
                        0int
                    } else {
                        1int
                    }
                } else {
                    if dy <= 0 {
                        2int
                    } else {
                        3int
                    }
                }
            } else {
                if dy <= 0 {
                    if dx <= 0 {
                        4int
                    } else {
                        5int
                    }
                } else {
                    if dx <= 0 {
                        6int
                    } else {
                        7int
                    }
                }
            };
            let oct = octs[i];
            let rel = if ax >= ay {
                Rel { x: ax as u32, y: ay as u32 }
            } else {
                Rel { x: ay as u32, y: ax as u32 }
            };
            assert(oct.abs_ok(rel) && oct.abs_pt(rel) == p);
            assert(1 <= rel.x <= prim_extent(oct, x0, y0, x1, y1) && rel.y <= lat_extent(
                oct,
                x0,
                y0,
                x1,
                y1,
            ) && rel.y <= rel.x);
            assert forall|fuel: nat|
                (#[trigger] scan_stack(floor, oct, seq![Col::first_spec()], fuel))
                    is Some implies scan_stack(floor, oct, seq![Col::first_spec()], fuel)
                ->Some_0.contains(p) by {
                lemma_rect_chain(floor, oct, x0, y0, x1, y1, Col::first_spec(), fuel);
            }
            lemma_octant_mark_reported(floor, origin, r, i, p);
        }
    }
}

// Occlusion behind a wall next to the origin

/// The column's lower boundary has risen to half a tile or more: its rows
/// can never again reach lateral offset zero.
spec fn raised(c: Col) -> bool {
    2 * c.bottom_slope.num >= c.bottom_slope.den
}

/// The column's upper boundary has dropped to half a tile or less: its
/// rows can never again reach the diagonal.
spec fn capped(c: Col) -> bool {
    2 * c.top_slope.num <= c.top_slope.den
}

/// A raised column's row starts at lateral offset one at the earliest.
proof fn lemma_raised_lower(c: Col)
    requires
        c.wf(),
        raised(c),
    ensures
        c.lower() >= 1,
        2 * c.lower() > c.depth - 1,
{
    let d = c.depth as int;
    let bn = c.bottom_slope.num as int;
    let bd = c.bottom_slope.den as int;
    lemma_rhu_char(bn * d, bd);
    let lo = c.lower();
    assert(2 * lo > d - 1 && lo >= 1) by (nonlinear_arith)
        requires
            2 * (bn * d) < 2 * bd * lo + bd,
            2 * bn >= bd,
            1 <= bd,
            1 <= d,
    ;
}

/// A capped column's row ends at half the depth at the latest: from depth
/// two on, short of the diagonal.
proof fn lemma_capped_upper(c: Col)
    requires
        c.wf(),
        capped(c),
    ensures
        2 * c.upper() <= c.depth,
        c.depth >= 2 ==> c.upper() < c.depth,
{
    let d = c.depth as int;
    let tn = c.top_slope.num as int;
    let td = c.top_slope.den as int;
    lemma_rhd_char(tn * d, td);
    let u = c.upper();
    assert(2 * u <= d) by (nonlinear_arith)
        requires
            2 * (tn * d) > 2 * td * u - td,
            2 * tn <= td,
            1 <= td,
            1 <= d,
            0 <= u,
    ;
}

/// Which boundary of a scan's columns has pulled away from the target's
/// ray: neither, the lower one off the scan axis, or the upper one off the
/// diagonal.
#[derive(Clone, Copy, PartialEq, Eq, Structural, Debug)]
enum ConeCut {
    Free,
    Bottom,
    Top,
}

/// What the cut guarantees of a column.
spec fn cut_col(cut: ConeCut, c: Col) -> bool {
    match cut {
        ConeCut::Free => true,
        ConeCut::Bottom => raised(c),
        ConeCut::Top => capped(c) && c.depth >= 2,
    }
}

/// Which relative points a cut column can still scan.
spec fn cut_rel(cut: ConeCut, rel: Rel) -> bool {
    match cut {
        ConeCut::Free => true,
        ConeCut::Bottom => rel.y >= 1,
        ConeCut::Top => rel.y < rel.x,
    }
}

/// A row of a column that cannot reach the target reports nothing equal to
/// it, and pushes only columns cut the same way.
proof fn lemma_untouched_row(
    floor: spec_fn(Point) -> bool,
    oct: Octant,
    q: Point,
    cut: ConeCut,
    c: Col,
    i: int,
    prev: Option<TileClass>,
)
    requires
        c.wf(),
        cut_col(cut, c),
        forall|rel: Rel|
            oct.abs_ok(rel) && rel.x >= 1 && cut_rel(cut, rel) ==> #[trigger] oct.abs_pt(rel)
                != q,
        0 <= i <= c.row_len(),
        prev is Some ==> i >= 1,
    ensures
        forall|j: int|
            0 <= j < scan_row(floor, oct, c, i, prev).0.len() ==> #[trigger] scan_row(
                floor,
                oct,
                c,
                i,
                prev,
            ).0[j] != q,
        forall|k: int|
            0 <= k < scan_row(floor, oct, c, i, prev).1.len() ==> cut_col(
                cut,
                #[trigger] scan_row(floor, oct, c, i, prev).1[k],
            ),
    decreases c.row_len() - i,
{
    let whole = scan_row(floor, oct, c, i, prev);
    c.lemma_row_bounds();
    if cut == ConeCut::Bottom {
        lemma_raised_lower(c);
    }
    if cut == ConeCut::Top {
        lemma_capped_upper(c);
    }
    if i >= c.row_len() {
        // Only the unchanged continuation may be pushed; it keeps both
        // boundaries.
    } else {
        let rel = c.row_pts()[i];
        assert(rel.x == c.depth >= 1 && rel.y == c.lower() + i);
        let curr = class_of(floor, oct, rel);
        lemma_untouched_row(floor, oct, q, cut, c, i + 1, Some(curr));
        let rest = scan_row(floor, oct, c, i + 1, Some(curr));
        assert(cut_rel(cut, rel)) by {
            if cut == ConeCut::Top {
                assert(rel.y <= c.upper() < c.depth);
            }
        }
        assert(forall|j: int|
            0 <= j < mark_at(floor, oct, c, rel).len() ==> #[trigger] mark_at(
                floor,
                oct,
                c,
                rel,
            )[j] != q) by {
            if mark_at(floor, oct, c, rel).len() > 0 {
                assert(oct.abs_ok(rel));
                assert(oct.abs_pt(rel) != q);
            }
        }
        if prev == Some(TileClass::Wall) && curr == TileClass::Floor {
            // The rescan of this depth starts at this tile, above the scan
            // axis; its upper boundary is unchanged.
            let push = c.bottom_slope_spec(rel);
            assert(whole.0 == mark_at(floor, oct, c, rel) && whole.1 == seq![push]);
            assert(cut_col(cut, push)) by {
                if cut == ConeCut::Bottom {
                    assert(rel.y >= c.lower() + 1);
                    assert(2 * (2 * rel.y - 1) >= 2 * c.depth) by {
                        assert(2 * c.lower() > c.depth - 1);
                    }
                }
            }
        } else {
            assert(whole.0 == mark_at(floor, oct, c, rel) + rest.0);
            assert(forall|j: int| 0 <= j < whole.0.len() ==> #[trigger] whole.0[j] != q) by {
                let ml = mark_at(floor, oct, c, rel).len() as int;
                assert(forall|j: int|
                    ml <= j < whole.0.len() ==> #[trigger] whole.0[j] == rest.0[j - ml]);
            }
            if prev == Some(TileClass::Floor) && curr == TileClass::Wall {
                // The deeper, top-tightened push: its new upper boundary
                // lies at or below the old one, and its lower boundary is
                // unchanged.
                let push = c.top_slope_spec(rel).next_spec();
                assert(whole.1 == seq![push] + rest.1);
                assert(cut_col(cut, push)) by {
                    if cut == ConeCut::Top {
                        assert(2 * (2 * rel.y - 1) <= 2 * c.depth) by {
                            assert(rel.y <= c.upper() && 2 * c.upper() <= c.depth);
                        }
                    }
                }
                assert(forall|k: int|
                    0 <= k < whole.1.len() ==> cut_col(cut, #[trigger] whole.1[k])) by {
                    assert(forall|k: int|
                        1 <= k < whole.1.len() ==> #[trigger] whole.1[k] == rest.1[k - 1]);
                    assert(cut_col(cut, whole.1[0]));
                }
            } else {
                assert(whole.1 == rest.1);
            }
        }
    }
}

/// A whole stack of columns that cannot reach the target never reports it.
proof fn lemma_untouched_stack(
    floor: spec_fn(Point) -> bool,
    oct: Octant,
    q: Point,
    cut: ConeCut,
    s: Seq<Col>,
    fuel: nat,
)
    requires
        stack_wf(oct, s),
        forall|k: int| 0 <= k < s.len() ==> cut_col(cut, #[trigger] s[k]),
        forall|rel: Rel|
            oct.abs_ok(rel) && rel.x >= 1 && cut_rel(cut, rel) ==> #[trigger] oct.abs_pt(rel)
                != q,
        scan_stack(floor, oct, s, fuel) is Some,
    ensures
        !scan_stack(floor, oct, s, fuel)->Some_0.contains(q),
    decreases fuel,
{
    if s.len() == 0 {
    } else {
        let c = s.last();
        assert(c.wf() && c.depth <= oct_bound(oct) + 1 && cut_col(cut, c)) by {
            assert(s[s.len() - 1].wf());
            assert(cut_col(cut, s[s.len() - 1]));
        }
        let rp = scan_row(floor, oct, c, 0, None);
        lemma_untouched_row(floor, oct, q, cut, c, 0, None);
        lemma_pop_measure(floor, oct, c);
        let s2 = s.drop_last() + rp.1;
        assert(stack_wf(oct, s2) && forall|k: int|
            0 <= k < s2.len() ==> cut_col(cut, #[trigger] s2[k])) by {
            assert(forall|k: int| 0 <= k < s.len() - 1 ==> s2[k] == s[k]);
            assert(forall|k: int| s.len() - 1 <= k < s2.len() ==> s2[k] == rp.1[k - (s.len()
                - 1)]);
        }
        lemma_untouched_stack(floor, oct, q, cut, s2, (fuel - 1) as nat);
        let m = scan_stack(floor, oct, s, fuel)->Some_0;
        let rest = scan_stack(floor, oct, s2, (fuel - 1) as nat)->Some_0;
        assert(m == rp.0 + rest);
        if m.contains(q) {
            let j = choose|j: int| 0 <= j < m.len() && m[j] == q;
            if j < rp.0.len() {
                assert(rp.0[j] == q);
            } else {
                assert(rest[j - rp.0.len()] == q);
                assert(rest.contains(q));
            }
            assert(false);
        }
    }
}

/// An octant whose first tile on the scan axis is a wall never reports any
/// tile deeper on that axis: past the first row, every live column of its
/// scan is raised off the axis.
#[verifier::rlimit(100)]
proof fn lemma_blocked_octant(
    floor: spec_fn(Point) -> bool,
    oct: Octant,
    q: Point,
    fuel: nat,
)
    requires
        class_of(floor, oct, Rel { x: 1u32, y: 0u32 }) == TileClass::Wall,
        oct.abs_ok(Rel { x: 1u32, y: 0u32 }) ==> oct.abs_pt(Rel { x: 1u32, y: 0u32 }) != q,
        forall|rel: Rel|
            oct.abs_ok(rel) && rel.x >= 1 && rel.y >= 1 ==> #[trigger] oct.abs_pt(rel) != q,
        scan_stack(floor, oct, seq![Col::first_spec()], fuel) is Some,
    ensures
        !scan_stack(floor, oct, seq![Col::first_spec()], fuel)->Some_0.contains(q),
{
    let st = seq![Col::first_spec()];
    let c = Col::first_spec();
    lemma_first_row();
    assert(st.len() == 1 && st.last() == c && fuel >= 1);
    let rel0 = c.row_pts()[0];
    let rel1 = c.row_pts()[1];
    assert(rel0 == (Rel { x: 1u32, y: 0u32 }) && rel1 == (Rel { x: 1u32, y: 1u32 }));
    assert(class_of(floor, oct, rel0) == TileClass::Wall);
    let rp = scan_row(floor, oct, c, 0, None);
    let rest1 = scan_row(floor, oct, c, 1, Some(TileClass::Wall));
    assert(rp.0 == mark_at(floor, oct, c, rel0) + rest1.0 && rp.1 == rest1.1);
    let curr1 = class_of(floor, oct, rel1);
    let rest2 = scan_row(floor, oct, c, 2, Some(curr1));
    // The first tile is wall, so the row either rescans from the second
    // tile or pushes nothing at all.
    if curr1 == TileClass::Floor {
        let push = c.bottom_slope_spec(rel1);
        assert(rest1 == (mark_at(floor, oct, c, rel1), seq![push]));
        assert(rp.0 == mark_at(floor, oct, c, rel0) + mark_at(floor, oct, c, rel1));
        assert(rp.1 == seq![push]);
        assert(push.wf() && raised(push) && push.depth <= oct_bound(oct) + 1) by {
            assert(push.bottom_slope == slope_spec(rel1));
            assert(slope_spec(rel1) == (Slope { num: 1u32, den: 2u32 }));
        }
    } else {
        assert(rest2.1 =~= Seq::<Col>::empty());
        assert(rp.0 =~= mark_at(floor, oct, c, rel0) + mark_at(floor, oct, c, rel1));
        assert(rp.1 =~= Seq::<Col>::empty());
    }
    assert(stack_wf(oct, rp.1) && forall|k: int|
        0 <= k < rp.1.len() ==> cut_col(ConeCut::Bottom, #[trigger] rp.1[k]));
    let s2 = st.drop_last() + rp.1;
    assert(s2 =~= rp.1);
    lemma_untouched_stack(floor, oct, q, ConeCut::Bottom, s2, (fuel - 1) as nat);
    let m = scan_stack(floor, oct, st, fuel)->Some_0;
    let rest = scan_stack(floor, oct, s2, (fuel - 1) as nat)->Some_0;
    assert(m == rp.0 + rest);
    // Neither of the first row's two marks is the target, and the rest of
    // the scan never reaches it.
    if m.contains(q) {
        let j = choose|j: int| 0 <= j < m.len() && m[j] == q;
        if j < rp.0.len() {
            let m0 = mark_at(floor, oct, c, rel0);
            let m1 = mark_at(floor, oct, c, rel1);
            assert(rp.0[j] == q);
            if j < m0.len() {
                assert(oct.abs_ok(rel0) && oct.abs_pt(rel0) == q);
            } else {
                assert(m1[j - m0.len()] == q);
                assert(oct.abs_ok(rel1) && oct.abs_pt(rel1) == q);
            }
            assert(false);
        } else {
            assert(rest[j - rp.0.len()] == q);
            assert(rest.contains(q));
            assert(false);
        }
    }
}

/// An octant whose first tile on the diagonal is a wall never reports any
/// tile deeper on the diagonal: past the first row, every live column of
/// its scan is capped below it.
#[verifier::rlimit(100)]
proof fn lemma_blocked_octant_diag(
    floor: spec_fn(Point) -> bool,
    oct: Octant,
    q: Point,
    fuel: nat,
)
    requires
        class_of(floor, oct, Rel { x: 1u32, y: 1u32 }) == TileClass::Wall,
        oct.abs_ok(Rel { x: 1u32, y: 1u32 }) ==> oct.abs_pt(Rel { x: 1u32, y: 1u32 }) != q,
        forall|rel: Rel|
            oct.abs_ok(rel) && rel.x >= 1 && rel.y < rel.x ==> #[trigger] oct.abs_pt(rel) != q,
        oct_bound(oct) >= 1,
        scan_stack(floor, oct, seq![Col::first_spec()], fuel) is Some,
    ensures
        !scan_stack(floor, oct, seq![Col::first_spec()], fuel)->Some_0.contains(q),
{
    let st = seq![Col::first_spec()];
    let c = Col::first_spec();
    lemma_first_row();
    assert(st.len() == 1 && st.last() == c && fuel >= 1);
    let rel0 = c.row_pts()[0];
    let rel1 = c.row_pts()[1];
    assert(rel0 == (Rel { x: 1u32, y: 0u32 }) && rel1 == (Rel { x: 1u32, y: 1u32 }));
    assert(class_of(floor, oct, rel1) == TileClass::Wall);
    let curr0 = class_of(floor, oct, rel0);
    let rp = scan_row(floor, oct, c, 0, None);
    let rest1 = scan_row(floor, oct, c, 1, Some(curr0));
    assert(rp.0 == mark_at(floor, oct, c, rel0) + rest1.0 && rp.1 == rest1.1);
    let rest2 = scan_row(floor, oct, c, 2, Some(TileClass::Wall));
    assert(rest2 == (Seq::<Point>::empty(), Seq::<Col>::empty()));
    // The second tile is wall, so the row either tightens its top to the
    // diagonal's lower edge or pushes nothing at all.
    if curr0 == TileClass::Floor {
        let push = c.top_slope_spec(rel1).next_spec();
        assert(rest1 == (
            mark_at(floor, oct, c, rel1) + rest2.0,
            seq![push] + rest2.1,
        ));
        assert(rp.1 =~= seq![push]);
        assert(push.wf() && capped(push) && push.depth == 2 <= oct_bound(oct) + 1) by {
            assert(push.top_slope == slope_spec(rel1));
            assert(slope_spec(rel1) == (Slope { num: 1u32, den: 2u32 }));
        }
    } else {
        assert(rest1 == (mark_at(floor, oct, c, rel1) + rest2.0, rest2.1));
        assert(rp.1 =~= Seq::<Col>::empty());
    }
    assert(rp.0 =~= mark_at(floor, oct, c, rel0) + mark_at(floor, oct, c, rel1));
    assert(stack_wf(oct, rp.1) && forall|k: int|
        0 <= k < rp.1.len() ==> cut_col(ConeCut::Top, #[trigger] rp.1[k]));
    let s2 = st.drop_last() + rp.1;
    assert(s2 =~= rp.1);
    lemma_untouched_stack(floor, oct, q, ConeCut::Top, s2, (fuel - 1) as nat);
    let m = scan_stack(floor, oct, st, fuel)->Some_0;
    let rest = scan_stack(floor, oct, s2, (fuel - 1) as nat)->Some_0;
    assert(m == rp.0 + rest);
    // Neither of the first row's two marks is the target, and the rest of
    // the scan never reaches it.
    if m.contains(q) {
        let j = choose|j: int| 0 <= j < m.len() && m[j] == q;
        if j < rp.0.len() {
            let m0 = mark_at(floor, oct, c, rel0);
            let m1 = mark_at(floor, oct, c, rel1);
            assert(rp.0[j] == q);
            if j < m0.len() {
                assert(oct.abs_ok(rel0) && oct.abs_pt(rel0) == q);
            } else {
                assert(m1[j - m0.len()] == q);
                assert(oct.abs_ok(rel1) && oct.abs_pt(rel1) == q);
            }
            assert(false);
        } else {
            assert(rest[j - rp.0.len()] == q);
            assert(rest.contains(q));
            assert(false);
        }
    }
}

/// The tile one step from the origin.
pub open spec fn adjacent_pt(origin: Point, dir: Move) -> Point {
    Point { x: dir.step_spec(origin).0 as u16, y: dir.step_spec(origin).1 as u16 }
}

/// The grid points on the ray from the origin through its `dir` neighbour,
/// strictly past that neighbour.
pub open spec fn on_ray_behind(origin: Point, dir: Move, q: Point) -> bool {
    match dir {
        Move::Left => q.y == origin.y && q.x < origin.x - 1,
        Move::Right => q.y == origin.y && q.x > origin.x + 1,
        Move::Up => q.x == origin.x && q.y < origin.y - 1,
        Move::Down => q.x == origin.x && q.y > origin.y + 1,
        Move::LU => origin.x - q.x == origin.y - q.y && q.x < origin.x - 1,
        Move::LD => origin.x - q.x == q.y - origin.y && q.x < origin.x - 1,
        Move::RU => q.x - origin.x == origin.y - q.y && q.x > origin.x + 1,
        Move::RD => q.x - origin.x == q.y - origin.y && q.x > origin.x + 1,
    }
}

/// One octant of a scan blocked along a ray never reports a tile strictly
/// behind the wall on that ray: the two octants that scan along the ray
/// see the wall in their first row, and the other six never build a tile
/// of the ray at all.
proof fn lemma_ray_octant_untouched(
    floor: spec_fn(Point) -> bool,
    origin: Point,
    dir: Move,
    q: Point,
    i: int,
    fuel: nat,
)
    requires
        dir.step_ok(origin),
        !floor(adjacent_pt(origin, dir)),
        on_ray_behind(origin, dir, q),
        0 <= i < 8,
        scan_stack(floor, Octant::octants(origin)[i], seq![Col::first_spec()], fuel) is Some,
    ensures
        !scan_stack(floor, Octant::octants(origin)[i], seq![Col::first_spec()], fuel)
            ->Some_0.contains(q),
{
    let st = seq![Col::first_spec()];
    let oct = Octant::octants(origin)[i];
    let axis = match dir {
        Move::Left => i == 0 || i == 1,
        Move::Right => i == 2 || i == 3,
        Move::Up => i == 4 || i == 5,
        Move::Down => i == 6 || i == 7,
        _ => false,
    };
    let diagonal = match dir {
        Move::LU => i == 0 || i == 4,
        Move::LD => i == 1 || i == 6,
        Move::RU => i == 2 || i == 5,
        Move::RD => i == 3 || i == 7,
        _ => false,
    };
    if axis {
        assert(oct.abs_ok(Rel { x: 1u32, y: 0u32 }) && oct.abs_pt(Rel { x: 1u32, y: 0u32 })
            == adjacent_pt(origin, dir));
        assert(class_of(floor, oct, Rel { x: 1u32, y: 0u32 }) == TileClass::Wall);
        assert(forall|rel: Rel|
            oct.abs_ok(rel) && rel.x >= 1 && rel.y >= 1 ==> #[trigger] oct.abs_pt(rel) != q);
        lemma_blocked_octant(floor, oct, q, fuel);
    } else if diagonal {
        assert(oct.abs_ok(Rel { x: 1u32, y: 1u32 }) && oct.abs_pt(Rel { x: 1u32, y: 1u32 })
            == adjacent_pt(origin, dir));
        assert(class_of(floor, oct, Rel { x: 1u32, y: 1u32 }) == TileClass::Wall);
        assert(forall|rel: Rel|
            oct.abs_ok(rel) && rel.x >= 1 && rel.y < rel.x ==> #[trigger] oct.abs_pt(rel)
                != q);
        assert(oct_bound(oct) >= 1);
        lemma_blocked_octant_diag(floor, oct, q, fuel);
    } else {
        assert(forall|rel: Rel|
            oct.abs_ok(rel) && rel.x >= 1 ==> #[trigger] oct.abs_pt(rel) != q);
        assert(stack_wf(oct, st));
        assert(forall|k: int| 0 <= k < st.len() ==> cut_col(ConeCut::Free, #[trigger] st[k]));
        lemma_untouched_stack(floor, oct, q, ConeCut::Free, st, fuel);
    }
}

/// Occlusion: a wall standing next to the origin blocks every tile
/// strictly behind it along the same ray, on an axis or on a diagonal:
/// none of those tiles is ever reported, whatever else the map holds.
#[verifier::rlimit(100)]
pub proof fn lemma_adjacent_wall_blocks_ray(
    floor: spec_fn(Point) -> bool,
    origin: Point,
    r: Seq<Point>,
    dir: Move,
    q: Point,
)
    requires
        compute_post(floor, origin, r),
        dir.step_ok(origin),
        !floor(adjacent_pt(origin, dir)),
        on_ray_behind(origin, dir, q),
    ensures
        !r.contains(q),
{
    let fuel = choose|f: nat| scan_from(floor, origin, 0, f) == Some(r.skip(1));
    let tail = r.skip(1);
    let st = seq![Col::first_spec()];
    let octs = Octant::octants(origin);
    assert(scan_from(floor, origin, 0, fuel) is Some);
    assert(scan_stack(floor, octs[0], st, fuel) is Some && scan_from(floor, origin, 1, fuel)
        is Some);
    assert(scan_stack(floor, octs[1], st, fuel) is Some && scan_from(floor, origin, 2, fuel)
        is Some);
    assert(scan_stack(floor, octs[2], st, fuel) is Some && scan_from(floor, origin, 3, fuel)
        is Some);
    assert(scan_stack(floor, octs[3], st, fuel) is Some && scan_from(floor, origin, 4, fuel)
        is Some);
    assert(scan_stack(floor, octs[4], st, fuel) is Some && scan_from(floor, origin, 5, fuel)
        is Some);
    assert(scan_stack(floor, octs[5], st, fuel) is Some && scan_from(floor, origin, 6, fuel)
        is Some);
    assert(scan_stack(floor, octs[6], st, fuel) is Some && scan_from(floor, origin, 7, fuel)
        is Some);
    assert(scan_stack(floor, octs[7], st, fuel) is Some && scan_from(floor, origin, 8, fuel)
        == Some(Seq::<Point>::empty()));
    let m0 = choose|m: Seq<Point>| scan_stack(floor, octs[0], st, fuel) == Some(m);
    let m1 = choose|m: Seq<Point>| scan_stack(floor, octs[1], st, fuel) == Some(m);
    let m2 = choose|m: Seq<Point>| scan_stack(floor, octs[2], st, fuel) == Some(m);
    let m3 = choose|m: Seq<Point>| scan_stack(floor, octs[3], st, fuel) == Some(m);
    let m4 = choose|m: Seq<Point>| scan_stack(floor, octs[4], st, fuel) == Some(m);
    let m5 = choose|m: Seq<Point>| scan_stack(floor, octs[5], st, fuel) == Some(m);
    let m6 = choose|m: Seq<Point>| scan_stack(floor, octs[6], st, fuel) == Some(m);
    let m7 = choose|m: Seq<Point>| scan_stack(floor, octs[7], st, fuel) == Some(m);
    assert(tail == m0 + (m1 + (m2 + (m3 + (m4 + (m5 + (m6 + (m7
        + Seq::<Point>::empty()))))))));
    let flat = m0 + m1 + m2 + m3 + m4 + m5 + m6 + m7;
    assert(tail =~= flat);
    assert(!m0.contains(q) && !m1.contains(q) && !m2.contains(q) && !m3.contains(q)
        && !m4.contains(q) && !m5.contains(q) && !m6.contains(q) && !m7.contains(q)) by {
        lemma_ray_octant_untouched(floor, origin, dir, q, 0, fuel);
        lemma_ray_octant_untouched(floor, origin, dir, q, 1, fuel);
        lemma_ray_octant_untouched(floor, origin, dir, q, 2, fuel);
        lemma_ray_octant_untouched(floor, origin, dir, q, 3, fuel);
        lemma_ray_octant_untouched(floor, origin, dir, q, 4, fuel);
        lemma_ray_octant_untouched(floor, origin, dir, q, 5, fuel);
        lemma_ray_octant_untouched(floor, origin, dir, q, 6, fuel);
        lemma_ray_octant_untouched(floor, origin, dir, q, 7, fuel);
    }
    if r.contains(q) {
        let k = choose|k: int| 0 <= k < r.len() && r[k] == q;
        if k == 0 {
            assert(q == origin);
            assert(false);
        } else {
            assert(tail[k - 1] == q);
            let j = k - 1;
            let l0 = m0.len() as int;
            let l1 = l0 + m1.len();
            let l2 = l1 + m2.len();
            let l3 = l2 + m3.len();
            let l4 = l3 + m4.len();
            let l5 = l4 + m5.len();
            let l6 = l5 + m6.len();
            if j < l0 {
                assert(m0.contains(q)) by {
                    assert(m0[j] == q);
                }
            } else if j < l1 {
                assert(m1.contains(q)) by {
                    assert(m1[j - l0] == q);
                }
            } else if j < l2 {
                assert(m2.contains(q)) by {
                    assert(m2[j - l1] == q);
                }
            } else if j < l3 {
                assert(m3.contains(q)) by {
                    assert(m3[j - l2] == q);
                }
            } else if j < l4 {
                assert(m4.contains(q)) by {
                    assert(m4[j - l3] == q);
                }
            } else if j < l5 {
                assert(m5.contains(q)) by {
                    assert(m5[j - l4] == q);
                }
            } else if j < l6 {
                assert(m6.contains(q)) by {
                    assert(m6[j - l5] == q);
                }
            } else {
                assert(m7.contains(q)) by {
                    assert(m7[j - l6] == q);
                }
            }
            assert(false);
        }
    }
}


// The executable scanner

/// Scan one popped column's row: report its visible points into `out`, in
/// scan order, and push its continuation columns onto `stack`.
fn scan_col<G: Grid>(oct: &Octant, grid: &G, col: Col, out: &mut Vec<Point>, stack: &mut Vec<Col>)
    requires
        col.wf(),
    ensures
        final(out)@ == old(out)@ + scan_row(grid_floor(grid), *oct, col, 0, None).0,
        final(stack)@ == old(stack)@ + scan_row(grid_floor(grid), *oct, col, 0, None).1,
{
    let ghost floor = grid_floor(grid);
    let ghost full = scan_row(floor, *oct, col, 0, None);
    let ghost out0 = out@;
    let ghost stack0 = stack@;
    proof {
        col.lemma_row_bounds();
    }
    let pts = col.points();
    let mut prev: Option<TileClass> = None;
    let mut i: usize = 0;
    let mut cut = false;
    while i < pts.len() && !cut
        invariant
            col.wf(),
            pts@ == col.row_pts(),
            0 <= i <= pts.len(),
            floor == grid_floor(grid),
            full == scan_row(floor, *oct, col, 0, None),
            out@.len() >= out0.len(),
            out@.take(out0.len() as int) == out0,
            stack@.len() >= stack0.len(),
            stack@.take(stack0.len() as int) == stack0,
            !cut ==> {
                &&& full.0 == out@.skip(out0.len() as int) + scan_row(
                    floor,
                    *oct,
                    col,
                    i as int,
                    prev,
                ).0
                &&& full.1 == stack@.skip(stack0.len() as int) + scan_row(
                    floor,
                    *oct,
                    col,
                    i as int,
                    prev,
                ).1
                &&& (prev is Some ==> i >= 1)
                &&& (prev == Some(TileClass::Floor) ==> col.depth <= 0xFFFF)
            },
            cut ==> {
                &&& full.0 == out@.skip(out0.len() as int)
                &&& full.1 == stack@.skip(stack0.len() as int)
            },
        decreases pts.len() - i,
    {
        let rel = pts[i];
        proof {
            col.lemma_row_bounds();
            assert(rel == col.row_pts()[i as int]);
            assert(rel.y <= col.depth && rel.x == col.depth);
        }
        let abs = oct.absolute(rel);
        let curr: TileClass = match abs {
            Some(p) => if grid.is_floor(p) {
                TileClass::Floor
            } else {
                TileClass::Wall
            },
            None => TileClass::Wall,
        };
        proof {
            assert(curr == class_of(floor, *oct, rel));
            if curr == TileClass::Floor {
                lemma_abs_ok_depth(*oct, rel);
            }
        }
        let ghost out_before = out@;
        if let Some(p) = abs {
            if curr == TileClass::Wall || col.is_symmetric(rel) {
                out.push(p);
            }
        }
        proof {
            assert(out@ =~= out_before + mark_at(floor, *oct, col, rel));
            assert(out@.take(out0.len() as int) =~= out0);
            assert(out@.skip(out0.len() as int) =~= out_before.skip(out0.len() as int) + mark_at(
                floor,
                *oct,
                col,
                rel,
            ));
        }
        let ghost stack_before = stack@;
        let prev_floor = matches!(prev, Some(TileClass::Floor));
        let prev_wall = matches!(prev, Some(TileClass::Wall));
        if prev_floor && curr == TileClass::Wall {
            proof {
                assert(rel.y >= 1);
            }
            stack.push(col.top_slope(rel).next());
        } else if prev_wall && curr == TileClass::Floor {
            proof {
                assert(rel.y >= 1);
            }
            stack.push(col.bottom_slope(rel));
            cut = true;
        }
        proof {
            assert(stack@.take(stack0.len() as int) =~= stack0);
        }
        if !cut {
            proof {
                let rest = scan_row(floor, *oct, col, i + 1, Some(curr));
                let here = scan_row(floor, *oct, col, i as int, prev);
                if prev_floor && curr == TileClass::Wall {
                    let push = col.top_slope_spec(rel).next_spec();
                    assert(here.0 == mark_at(floor, *oct, col, rel) + rest.0);
                    assert(here.1 == seq![push] + rest.1);
                    assert(stack@ =~= stack_before.push(push));
                    assert(stack@.skip(stack0.len() as int) =~= stack_before.skip(
                        stack0.len() as int,
                    ) + seq![push]);
                } else {
                    assert(here.0 == mark_at(floor, *oct, col, rel) + rest.0);
                    assert(here.1 == rest.1);
                }
                assert(full.0 =~= out@.skip(out0.len() as int) + rest.0);
                assert(full.1 =~= stack@.skip(stack0.len() as int) + rest.1);
            }
            prev = Some(curr);
        } else {
            proof {
                let here = scan_row(floor, *oct, col, i as int, prev);
                let push = col.bottom_slope_spec(rel);
                assert(here.0 == mark_at(floor, *oct, col, rel));
                assert(here.1 == seq![push]);
                assert(stack@ =~= stack_before.push(push));
                assert(stack@.skip(stack0.len() as int) =~= stack_before.skip(
                    stack0.len() as int,
                ) + seq![push]);
                assert(full.0 =~= out@.skip(out0.len() as int));
                assert(full.1 =~= stack@.skip(stack0.len() as int));
            }
        }
        i = i + 1;
    }
    if !cut {
        let ghost rest = scan_row(floor, *oct, col, i as int, prev);
        proof {
            assert(i == pts.len());
            assert(i as int >= col.row_len());
        }
        if matches!(prev, Some(TileClass::Floor)) {
            stack.push(col.next());
            proof {
                assert(rest.1 == seq![col.next_spec()]);
                assert(stack@.skip(stack0.len() as int) =~= stack@.drop_last().skip(
                    stack0.len() as int,
                ) + seq![col.next_spec()]);
                assert(stack@.take(stack0.len() as int) =~= stack0);
            }
        } else {
            proof {
                assert(rest.1 =~= Seq::<Col>::empty());
            }
        }
        proof {
            assert(rest.0 =~= Seq::<Point>::empty());
            assert(full.0 =~= out@.skip(out0.len() as int));
            assert(full.1 =~= stack@.skip(stack0.len() as int));
        }
    }
    proof {
        assert(out@ =~= out0 + out@.skip(out0.len() as int));
        assert(stack@ =~= stack0 + stack@.skip(stack0.len() as int));
    }
}

/// Scan one whole octant, reporting its visible points into `out`: columns
/// are popped last-in first-out from a work stack seeded with the first
/// column, so the report is covered by [`scan_stack`] under some fuel.
fn scan_octant<G: Grid>(oct: Octant, grid: &G, out: &mut Vec<Point>)
    ensures
        final(out)@.len() >= old(out)@.len(),
        final(out)@.take(old(out)@.len() as int) == old(out)@,
        exists|f: nat|
            scan_stack(grid_floor(grid), oct, seq![Col::first_spec()], f) == Some(
                final(out)@.skip(old(out)@.len() as int),
            ),
{
    let ghost floor = grid_floor(grid);
    let ghost out0 = out@;
    let mut stack: Vec<Col> = Vec::new();
    stack.push(Col::first());
    let ghost fuel_used: nat = 0nat;
    proof {
        assert(stack@ =~= seq![Col::first_spec()]);
        assert(stack_wf(oct, stack@));
        assert forall|f: nat|
            scan_stack(floor, oct, seq![Col::first_spec()], fuel_used + f) == with_prefix(
                out@.skip(out0.len() as int),
                scan_stack(floor, oct, stack@, f),
            ) by {
            assert(out@.skip(out0.len() as int) =~= Seq::<Point>::empty());
            match scan_stack(floor, oct, stack@, f) {
                Some(t) => {
                    assert(Seq::<Point>::empty() + t =~= t);
                },
                None => {},
            }
        }
    }
    while stack.len() != 0
        invariant
            floor == grid_floor(grid),
            stack_wf(oct, stack@),
            out@.len() >= out0.len(),
            out@.take(out0.len() as int) == out0,
            forall|f: nat|
                scan_stack(floor, oct, seq![Col::first_spec()], fuel_used + f) == with_prefix(
                    out@.skip(out0.len() as int),
                    #[trigger] scan_stack(floor, oct, stack@, f),
                ),
        decreases msum(oct, stack@),
    {
        let ghost stack_old = stack@;
        let ghost delta_old = out@.skip(out0.len() as int);
        let col = stack.pop().unwrap();
        proof {
            assert(col == stack_old.last());
            assert(stack@ == stack_old.drop_last());
            assert(col.wf() && col.depth <= oct_bound(oct) + 1) by {
                assert(stack_old[stack_old.len() - 1].wf());
            }
        }
        scan_col(&oct, grid, col, out, &mut stack);
        proof {
            let rp = scan_row(floor, oct, col, 0, None);
            lemma_pop_measure(floor, oct, col);
            // The measure drops: the pushes weigh less than the popped
            // column.
            lemma_msum_add(oct, stack_old.drop_last(), rp.1);
            assert(stack@ == stack_old.drop_last() + rp.1);
            assert(msum(oct, stack_old) == msum(oct, stack_old.drop_last()) + mcol(oct, col));
            assert(msum(oct, stack@) < msum(oct, stack_old));
            // The stack stays well-formed.
            assert forall|k: int| 0 <= k < stack@.len() implies (#[trigger] stack@[k]).wf()
                && stack@[k].depth <= oct_bound(oct) + 1 by {
                if k < stack_old.len() - 1 {
                    assert(stack@[k] == stack_old[k]);
                    assert(stack_old[k].wf() && stack_old[k].depth <= oct_bound(oct) + 1);
                } else {
                    assert(stack@[k] == rp.1[k - (stack_old.len() - 1)]);
                    assert(stack_wf(oct, rp.1));
                }
            }
            // The continuation invariant: one more pop of fuel covers the
            // step just taken.
            let delta = out@.skip(out0.len() as int);
            assert(out@.take(out0.len() as int) =~= out0);
            assert(delta =~= delta_old + rp.0);
            let fuel_next = fuel_used + 1nat;
            assert forall|f: nat|
                scan_stack(floor, oct, seq![Col::first_spec()], fuel_next + f) == with_prefix(
                    delta,
                    #[trigger] scan_stack(floor, oct, stack@, f),
                ) by {
                assert(scan_stack(floor, oct, stack_old, f + 1) == with_prefix(
                    rp.0,
                    scan_stack(floor, oct, stack@, f),
                ));
                assert(scan_stack(floor, oct, seq![Col::first_spec()], fuel_used + (f + 1))
                    == with_prefix(delta_old, scan_stack(floor, oct, stack_old, f + 1)));
                match scan_stack(floor, oct, stack@, f) {
                    Some(t) => {
                        assert(delta_old + (rp.0 + t) =~= delta + t);
                    },
                    None => {},
                }
                assert(fuel_used + (f + 1) == fuel_next + f);
            }
            fuel_used = fuel_next;
        }
    }
    proof {
        assert(scan_stack(floor, oct, stack@, 0nat) == Some(Seq::<Point>::empty()));
        let delta = out@.skip(out0.len() as int);
        assert(scan_stack(floor, oct, seq![Col::first_spec()], fuel_used + 0nat) == with_prefix(
            delta,
            scan_stack(floor, oct, stack@, 0nat),
        ));
        assert(delta + Seq::<Point>::empty() =~= delta);
        assert(scan_stack(floor, oct, seq![Col::first_spec()], fuel_used) == Some(delta));
    }
}

/// Shadowcasting field-of-view.
///
/// Report the origin first, then every tile the origin can see: the eight
/// octants are scanned in enumeration order, within an octant by the
/// last-in first-out column order of [`scan_stack`].  A tile on an octant
/// boundary may be reported more than once; callers that need each tile
/// once deduplicate the result.
pub fn compute<G: Grid>(origin: Point, grid: &G) -> (r: Vec<Point>)
    ensures
        compute_post(grid_floor(grid), origin, r@),
        r@.len() >= 1,
        r@[0] == origin,
{
    let ghost floor = grid_floor(grid);
    let mut r: Vec<Point> = Vec::new();
    r.push(origin);
    let octs = Octant::iter_from(origin);
    let ghost fuel_all: nat = 0nat;
    proof {
        assert forall|f: nat| f >= fuel_all implies scan_from(floor, origin, 0, f) == with_prefix(
            r@.skip(1),
            #[trigger] scan_from(floor, origin, 0, f),
        ) by {
            assert(r@.skip(1) =~= Seq::<Point>::empty());
            match scan_from(floor, origin, 0, f) {
                Some(t) => {
                    assert(Seq::<Point>::empty() + t =~= t);
                },
                None => {},
            }
        }
    }
    let mut oi: usize = 0;
    while oi < 8
        invariant
            floor == grid_floor(grid),
            octs@ == Octant::octants(origin),
            0 <= oi <= 8,
            r@.len() >= 1,
            r@[0] == origin,
            r@.take(1) == seq![origin],
            forall|f: nat|
                f >= fuel_all ==> scan_from(floor, origin, 0, f) == with_prefix(
                    r@.skip(1),
                    #[trigger] scan_from(floor, origin, oi as int, f),
                ),
        decreases 8 - oi,
    {
        let ghost r_old = r@;
        let ghost fuel_old = fuel_all;
        let oct = octs[oi];
        scan_octant(oct, grid, &mut r);
        proof {
            let g = choose|g: nat|
                scan_stack(floor, oct, seq![Col::first_spec()], g) == Some(
                    r@.skip(r_old.len() as int),
                );
            let m = r@.skip(r_old.len() as int);
            let fuel_new = if fuel_old >= g {
                fuel_old
            } else {
                g
            };
            assert(r@.take(r_old.len() as int) == r_old);
            assert(r@.take(1) =~= r_old.take(1));
            assert(r@[0] == origin);
            assert forall|f: nat|
                f >= fuel_new implies scan_from(floor, origin, 0, f) == with_prefix(
                    r@.skip(1),
                    #[trigger] scan_from(floor, origin, oi + 1, f),
                ) by {
                lemma_scan_stack_mono(floor, oct, seq![Col::first_spec()], g, f);
                assert(scan_stack(floor, oct, seq![Col::first_spec()], f) == Some(m));
                assert(Octant::octants(origin)[oi as int] == oct);
                assert(scan_from(floor, origin, oi as int, f) == with_prefix(
                    m,
                    scan_from(floor, origin, oi + 1, f),
                ));
                match scan_from(floor, origin, oi + 1, f) {
                    Some(t) => {
                        assert(scan_from(floor, origin, 0, f) == Some(
                            r_old.skip(1) + (m + t),
                        ));
                        assert(r_old.skip(1) + (m + t) =~= r@.skip(1) + t) by {
                            assert(r@ =~= r_old + m);
                        }
                    },
                    None => {
                        assert(scan_from(floor, origin, oi as int, f) is None);
                        assert(scan_from(floor, origin, 0, f) is None);
                    },
                }
            }
            fuel_all = fuel_new;
        }
        oi = oi + 1;
    }
    proof {
        assert(scan_from(floor, origin, 8, fuel_all) == Some(Seq::<Point>::empty()));
        assert(scan_from(floor, origin, 0, fuel_all) == with_prefix(
            r@.skip(1),
            scan_from(floor, origin, 8, fuel_all),
        ));
        assert(r@.skip(1) + Seq::<Point>::empty() =~= r@.skip(1));
        assert(scan_from(floor, origin, 0, fuel_all) == Some(r@.skip(1)));
    }
    r
}

/// A simple sight function that reports only the origin and its eight
/// neighbouring tiles, whatever the map holds.
pub fn _compute_simple(origin: Point) -> (r: Vec<Point>)
    requires
        1 <= origin.x < u16::MAX,
        1 <= origin.y < u16::MAX,
    ensures
        r@.len() == 9,
        r@[0] == origin,
        forall|i: int|
            1 <= i < 9 ==> (#[trigger] r@[i]).x == Move::all_spec()[i - 1].step_spec(origin).0
                && r@[i].y == Move::all_spec()[i - 1].step_spec(origin).1,
{
    let mut r: Vec<Point> = Vec::new();
    r.push(origin);
    let moves = Move::iter();
    let mut i: usize = 0;
    while i < moves.len()
        invariant
            moves@ == Move::all_spec(),
            1 <= origin.x < u16::MAX,
            1 <= origin.y < u16::MAX,
            0 <= i <= moves.len(),
            r@.len() == 1 + i,
            r@[0] == origin,
            forall|j: int|
                1 <= j < 1 + i ==> (#[trigger] r@[j]).x == Move::all_spec()[j - 1].step_spec(
                    origin,
                ).0 && r@[j].y == Move::all_spec()[j - 1].step_spec(origin).1,
        decreases moves.len() - i,
    {
        let p = moves[i].step(origin);
        r.push(p);
        i = i + 1;
    }
    r
}

} // verus!
