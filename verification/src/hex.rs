//! Hex-grid coordinate math on the cube lattice.
//!
//! A cell is addressed by a cube coordinate `(x, y, z)` with `x + y + z == 0`;
//! the axial form `(q, r)` and the odd-r offset form `(col, row)` are exact
//! reparameterizations of the same lattice. All arithmetic here is integer
//! (or exact rational, for interpolation), so every conversion and the
//! cell-rounding tie-break are deterministic.

use vstd::prelude::*;

verus! {

use vstd::math::abs;

/// Cube coordinate of a hex cell. Valid coordinates satisfy `x + y + z == 0`;
/// the constructors and conversions below preserve that invariant.
#[derive(Clone, Copy, PartialEq, Eq, Structural, Hash, Debug)]
pub struct HexCube {
    pub x: i32,
    pub y: i32,
    pub z: i32,
}

/// Axial coordinate: the `(q, r)` pair of a cube coordinate (`q = x`, `r = z`;
/// `y` is recovered as `-q - r`).
#[derive(Clone, Copy, PartialEq, Eq, Structural, Hash, Debug)]
pub struct HexAxial {
    pub q: i32,
    pub r: i32,
}

/// Odd-r offset coordinate: rectangular storage address of a hex cell, where
/// odd rows are understood as shifted half a column to the right.
#[derive(Clone, Copy, PartialEq, Eq, Structural, Hash, Debug)]
pub struct HexOffset {
    pub col: i32,
    pub row: i32,
}

/// Rendering position of a hex cell, in quarter-cell units: a cell is 4
/// units wide, rows are packed 3 units (three quarters of a cell) apart, and
/// odd rows are shifted 2 units (half a cell) to the right. Dividing both
/// components by 4 gives the conventional floating-point screen position.
#[derive(Clone, Copy, PartialEq, Eq, Structural, Hash, Debug)]
pub struct ScreenPos {
    pub x: i64,
    pub y: i64,
}

impl HexCube {
    /// The lattice invariant: the three cube components cancel.
    pub open spec fn is_zero_sum(self) -> bool {
        self.x + self.y + self.z == 0
    }

    pub fn new(x: i32, y: i32, z: i32) -> (r: HexCube)
        ensures
            r == (HexCube { x, y, z }),
    {
        HexCube { x, y, z }
    }

    pub fn zero() -> (r: HexCube)
        ensures
            r == (HexCube { x: 0, y: 0, z: 0 }),
            r.is_zero_sum(),
    {
        HexCube { x: 0, y: 0, z: 0 }
    }

    /// Component-wise vector addition.
    pub fn cube_add(self, rhs: HexCube) -> (r: HexCube)
        requires
            i32::MIN <= self.x + rhs.x <= i32::MAX,
            i32::MIN <= self.y + rhs.y <= i32::MAX,
            i32::MIN <= self.z + rhs.z <= i32::MAX,
        ensures
            r.x == self.x + rhs.x,
            r.y == self.y + rhs.y,
            r.z == self.z + rhs.z,
            self.is_zero_sum() && rhs.is_zero_sum() ==> r.is_zero_sum(),
    {
        HexCube { x: self.x + rhs.x, y: self.y + rhs.y, z: self.z + rhs.z }
    }

    /// Component-wise vector subtraction.
    pub fn cube_sub(self, rhs: HexCube) -> (r: HexCube)
        requires
            i32::MIN <= self.x - rhs.x <= i32::MAX,
            i32::MIN <= self.y - rhs.y <= i32::MAX,
            i32::MIN <= self.z - rhs.z <= i32::MAX,
        ensures
            r.x == self.x - rhs.x,
            r.y == self.y - rhs.y,
            r.z == self.z - rhs.z,
            self.is_zero_sum() && rhs.is_zero_sum() ==> r.is_zero_sum(),
    {
        HexCube { x: self.x - rhs.x, y: self.y - rhs.y, z: self.z - rhs.z }
    }

    /// Scaling by an integer factor.
    pub fn cube_scale(self, k: i32) -> (r: HexCube)
        requires
            i32::MIN <= self.x * k <= i32::MAX,
            i32::MIN <= self.y * k <= i32::MAX,
            i32::MIN <= self.z * k <= i32::MAX,
        ensures
            r.x == self.x * k,
            r.y == self.y * k,
            r.z == self.z * k,
            self.is_zero_sum() ==> r.is_zero_sum(),
    {
        proof {
            assert(self.is_zero_sum() ==> self.x * k + self.y * k + self.z * k == 0)
                by (nonlinear_arith);
        }
        HexCube { x: self.x * k, y: self.y * k, z: self.z * k }
    }
}

impl Default for HexCube {
    fn default() -> (r: Self)
        ensures
            r == (HexCube { x: 0, y: 0, z: 0 }),
    {
        HexCube { x: 0, y: 0, z: 0 }
    }
}

impl Default for HexAxial {
    fn default() -> (r: Self)
        ensures
            r == (HexAxial { q: 0, r: 0 }),
    {
        HexAxial { q: 0, r: 0 }
    }
}

/// Zero-sum vectors are closed under addition: the sum of two valid cube
/// coordinates is again a valid cube coordinate.
pub proof fn lemma_add_preserves_zero_sum(a: HexCube, b: HexCube, r: HexCube)
    requires
        a.is_zero_sum(),
        b.is_zero_sum(),
        r.x == a.x + b.x,
        r.y == a.y + b.y,
        r.z == a.z + b.z,
    ensures
        r.is_zero_sum(),
{
}

/// Zero-sum vectors are closed under subtraction.
pub proof fn lemma_sub_preserves_zero_sum(a: HexCube, b: HexCube, r: HexCube)
    requires
        a.is_zero_sum(),
        b.is_zero_sum(),
        r.x == a.x - b.x,
        r.y == a.y - b.y,
        r.z == a.z - b.z,
    ensures
        r.is_zero_sum(),
{
}

/// Axial form of a cube coordinate: drop the derived `y` component.
pub open spec fn spec_to_axial(c: HexCube) -> HexAxial {
    HexAxial { q: c.x, r: c.z }
}

/// Cube form of an axial coordinate: `x = q`, `z = r`, and `y` makes the
/// components cancel.
pub open spec fn spec_from_axial(a: HexAxial) -> HexCube {
    HexCube { x: a.q, y: (-a.q - a.r) as i32, z: a.r }
}

impl HexCube {
    pub fn to_axial(self) -> (r: HexAxial)
        ensures
            r == spec_to_axial(self),
    {
        HexAxial { q: self.x, r: self.z }
    }

    pub fn from_axial(a: HexAxial) -> (r: HexCube)
        requires
            i32::MIN <= -a.q - a.r <= i32::MAX,
        ensures
            r == spec_from_axial(a),
            r.is_zero_sum(),
    {
        let y64: i64 = -(a.q as i64) - (a.r as i64);
        HexCube { x: a.q, y: y64 as i32, z: a.r }
    }
}

/// Axial form loses nothing: converting a valid cube coordinate to axial and
/// back reproduces it exactly, and a second trip through axial form is stable.
pub proof fn lemma_axial_round_trip(c: HexCube)
    requires
        c.is_zero_sum(),
    ensures
        spec_from_axial(spec_to_axial(c)) == c,
        spec_to_axial(spec_from_axial(spec_to_axial(c))) == spec_to_axial(c),
{
}

/// Floor division by two; unlike `/` on signed machine integers it also
/// rounds negative values downward.
fn div2_floor(v: i64) -> (r: i64)
    requires
        i64::MIN < v,
    ensures
        r == v as int / 2,
{
    if v >= 0 {
        let q: u64 = (v as u64) / 2;
        proof {
            vstd::arithmetic::div_mod::lemma_fundamental_div_mod(v as u64 as int, 2);
        }
        q as i64
    } else {
        let m: u64 = (-v) as u64;
        let q: u64 = (m + 1) / 2;
        proof {
            vstd::arithmetic::div_mod::lemma_fundamental_div_mod(m + 1 as int, 2);
            let rr = (m + 1 as int) % 2;
            vstd::arithmetic::div_mod::lemma_fundamental_div_mod_converse_div(
                v as int,
                2,
                -(q as int),
                1 - rr,
            );
        }
        -(q as i64)
    }
}

/// Floor division of `a` by a positive divisor `b`; rounds toward negative
/// infinity for negative `a` as well.
fn div_floor(a: i64, b: i64) -> (r: i64)
    requires
        i64::MIN < a,
        1 <= b,
    ensures
        r == a as int / b as int,
{
    if a >= 0 {
        let q: u64 = (a as u64) / (b as u64);
        proof {
            vstd::arithmetic::div_mod::lemma_fundamental_div_mod(a as u64 as int, b as int);
            assert(q * b <= a) by (nonlinear_arith)
                requires
                    q == a as int / b as int,
                    a >= 0,
                    b >= 1,
            {
                vstd::arithmetic::div_mod::lemma_fundamental_div_mod(a as int, b as int);
                vstd::arithmetic::div_mod::lemma_remainder_lower(a as int, b as int);
            }
        }
        q as i64
    } else {
        let m: u64 = (-a) as u64;
        // ceil(m / b), so that -ceil(m / b) == floor(a / b)
        let q: u64 = (m + (b as u64) - 1) / (b as u64);
        proof {
            let bi = b as int;
            let num = m + bi - 1;
            vstd::arithmetic::div_mod::lemma_fundamental_div_mod(num, bi);
            vstd::arithmetic::div_mod::lemma_mod_division_less_than_divisor(num, bi);
            let rr = num % bi;
            assert(num == bi * (q as int) + rr);
            assert((-(q as int)) * bi == -(bi * (q as int))) by (nonlinear_arith);
            // a == (-q) * b + (b - 1 - rr), with the remainder in [0, b)
            assert(a as int == (-(q as int)) * bi + (bi - 1 - rr));
            vstd::arithmetic::div_mod::lemma_fundamental_div_mod_converse_div(
                a as int,
                bi,
                -(q as int),
                bi - 1 - rr,
            );
            assert(q <= m) by (nonlinear_arith)
                requires
                    q == (m + bi - 1) / bi,
                    m >= 1,
                    bi >= 1,
            {
                vstd::arithmetic::div_mod::lemma_fundamental_div_mod(m + bi - 1, bi);
                vstd::arithmetic::div_mod::lemma_remainder_lower(m + bi - 1, bi);
            }
        }
        -(q as i64)
    }
}

/// Bounds for a floor division: if `a` lies between `lo*d` and `hi*d`, the
/// quotient `a / d` lies between `lo` and `hi`.
proof fn lemma_div_floor_between(a: int, d: int, lo: int, hi: int)
    requires
        1 <= d,
        lo * d <= a,
        a <= hi * d,
    ensures
        lo <= a / d <= hi,
{
    vstd::arithmetic::div_mod::lemma_div_is_ordered(lo * d, a, d);
    vstd::arithmetic::div_mod::lemma_div_multiples_vanish(lo, d);
    assert(lo * d == d * lo) by (nonlinear_arith);
    assert((lo * d) / d == lo);
    vstd::arithmetic::div_mod::lemma_div_is_ordered(a, hi * d, d);
    vstd::arithmetic::div_mod::lemma_div_multiples_vanish(hi, d);
    assert(hi * d == d * hi) by (nonlinear_arith);
    assert((hi * d) / d == hi);
}

/// Odd-r column of a cube coordinate: `x` plus the row number halved,
/// rounding down.
pub open spec fn spec_odd_r_col(c: HexCube) -> int {
    c.x + (c.z as int) / 2
}

/// Odd-r offset address of a cube coordinate.
pub open spec fn spec_to_odd_r(c: HexCube) -> HexOffset {
    HexOffset { col: spec_odd_r_col(c) as i32, row: c.z }
}

/// Cube `x` component recovered from an odd-r offset address.
pub open spec fn spec_offset_x(o: HexOffset) -> int {
    o.col - (o.row as int) / 2
}

/// Cube coordinate of an odd-r offset address.
pub open spec fn spec_from_odd_r(o: HexOffset) -> HexCube {
    HexCube {
        x: spec_offset_x(o) as i32,
        y: (-spec_offset_x(o) - o.row) as i32,
        z: o.row,
    }
}

impl HexCube {
    /// Odd-r offset address of this cell.
    pub fn to_odd_r(self) -> (o: HexOffset)
        requires
            i32::MIN <= spec_odd_r_col(self) <= i32::MAX,
        ensures
            o == spec_to_odd_r(self),
            o.col == spec_odd_r_col(self),
            o.row == self.z,
    {
        let col64: i64 = self.x as i64 + div2_floor(self.z as i64);
        HexOffset { col: col64 as i32, row: self.z }
    }

    /// Cell at an odd-r offset address; the result always satisfies the
    /// zero-sum invariant.
    pub fn from_odd_r(o: HexOffset) -> (c: HexCube)
        requires
            i32::MIN <= spec_offset_x(o) <= i32::MAX,
            i32::MIN <= -spec_offset_x(o) - o.row <= i32::MAX,
        ensures
            c == spec_from_odd_r(o),
            c.x == spec_offset_x(o),
            c.z == o.row,
            c.y == -c.x - c.z,
            c.is_zero_sum(),
    {
        let x64: i64 = o.col as i64 - div2_floor(o.row as i64);
        let y64: i64 = -x64 - o.row as i64;
        HexCube { x: x64 as i32, y: y64 as i32, z: o.row }
    }
}

impl HexAxial {
    /// Axial address of the cell at an odd-r offset address.
    pub fn from_odd_r(o: HexOffset) -> (a: HexAxial)
        requires
            i32::MIN <= spec_offset_x(o) <= i32::MAX,
        ensures
            a.q == spec_offset_x(o),
            a.r == o.row,
    {
        let q64: i64 = o.col as i64 - div2_floor(o.row as i64);
        HexAxial { q: q64 as i32, r: o.row }
    }
}

/// Horizontal screen position of a cube coordinate, in quarter-cell units:
/// four times the odd-r column, plus the half-cell shift on odd rows.
pub open spec fn spec_screen_x(c: HexCube) -> int {
    4 * spec_odd_r_col(c) + 2 * ((c.z as int) % 2)
}

/// Vertical screen position of a cube coordinate, in quarter-cell units:
/// rows are three quarters of a cell apart.
pub open spec fn spec_screen_y(c: HexCube) -> int {
    3 * (c.z as int)
}

/// Cube coordinate of the cell whose screen footprint contains the point
/// `(px/den, py/den)` (in cells): the row is found by dividing out the
/// three-quarter row pitch, the column by undoing the odd-row shift, each
/// rounding down.
pub open spec fn spec_from_odd_r_screen(px: int, py: int, den: int) -> HexCube
    recommends
        1 <= den,
{
    let major_y = (4 * py) / (3 * den);
    let odd = major_y % 2;
    let major_x = (2 * px - den * odd) / (2 * den);
    let x = major_x - major_y / 2;
    HexCube { x: x as i32, y: (-x - major_y) as i32, z: major_y as i32 }
}

impl HexCube {
    /// Rendering position of this cell, in quarter-cell units.
    pub fn to_odd_r_screen(self) -> (p: ScreenPos)
        ensures
            p.x == spec_screen_x(self),
            p.y == spec_screen_y(self),
    {
        let z64: i64 = self.z as i64;
        let fl: i64 = div2_floor(z64);
        let odd: i64 = z64 - 2 * fl;
        proof {
            vstd::arithmetic::div_mod::lemma_fundamental_div_mod(z64 as int, 2);
            vstd::arithmetic::div_mod::lemma_mod_division_less_than_divisor(z64 as int, 2);
        }
        let col64: i64 = self.x as i64 + fl;
        ScreenPos { x: 4 * col64 + 2 * odd, y: 3 * z64 }
    }

    /// Cell whose screen footprint contains the point `(px/den, py/den)`
    /// cells. The point must lie within `0x1000_0000` cells of the origin.
    pub fn from_odd_r_screen(px: i64, py: i64, den: i64) -> (c: HexCube)
        requires
            1 <= den <= 0x8000_0000,
            -0x1000_0000 * den <= px <= 0x1000_0000 * den,
            -0x1000_0000 * den <= py <= 0x1000_0000 * den,
        ensures
            c == spec_from_odd_r_screen(px as int, py as int, den as int),
            c.is_zero_sum(),
    {
        let b: i64 = 0x1000_0000;
        proof {
            assert(4 * py <= 4 * b * den && -(4 * b) * den <= 4 * py) by (nonlinear_arith)
                requires
                    -b * den <= py <= b * den,
                    1 <= den,
                    b == 0x1000_0000,
            ;
            assert((-(2 * b)) * (3 * den) <= 4 * py <= (2 * b) * (3 * den)) by (nonlinear_arith)
                requires
                    -(4 * b) * den <= 4 * py <= 4 * b * den,
                    1 <= den,
                    b == 0x1000_0000,
            ;
            lemma_div_floor_between(4 * py as int, 3 * den as int, -(2 * b) as int, 2 * b as int);
        }
        let major_y: i64 = div_floor(4 * py, 3 * den);
        let fl_my: i64 = div2_floor(major_y);
        let odd: i64 = major_y - 2 * fl_my;
        proof {
            vstd::arithmetic::div_mod::lemma_fundamental_div_mod(major_y as int, 2);
            vstd::arithmetic::div_mod::lemma_mod_division_less_than_divisor(major_y as int, 2);
            assert(-0x0800_0000_0000_0000 <= px && px <= 0x0800_0000_0000_0000)
                by (nonlinear_arith)
                requires
                    -b * den <= px <= b * den,
                    1 <= den <= 0x8000_0000,
                    b == 0x1000_0000,
            ;
        }
        let shift: i64 = if odd == 1 { den } else { 0 };
        proof {
            assert(odd == 0 || odd == 1);
            assert(odd == 0 ==> den * odd == 0) by (nonlinear_arith);
            assert(odd == 1 ==> den * odd == den) by (nonlinear_arith);
            assert(shift == den * odd);
            assert((-(b + 1)) * (2 * den) <= 2 * px - den * odd <= b * (2 * den))
                by (nonlinear_arith)
                requires
                    -b * den <= px <= b * den,
                    1 <= den,
                    0 <= odd <= 1,
                    b == 0x1000_0000,
            ;
            lemma_div_floor_between(
                2 * px as int - den as int * odd as int,
                2 * den as int,
                -(b + 1) as int,
                b as int,
            );
        }
        let major_x: i64 = div_floor(2 * px - shift, 2 * den);
        let x64: i64 = major_x - fl_my;
        let y64: i64 = -x64 - major_y;
        HexCube { x: x64 as i32, y: y64 as i32, z: major_y as i32 }
    }
}

/// Screen round trip at cell centers: the screen position of a valid cube
/// coordinate, read back as a point in quarter-cell units, recovers exactly
/// that cell.
pub proof fn lemma_screen_round_trip(c: HexCube)
    requires
        c.is_zero_sum(),
        -0x0FFF_FFF0 <= c.x <= 0x0FFF_FFF0,
        -0x0FFF_FFF0 <= c.z <= 0x0FFF_FFF0,
    ensures
        spec_from_odd_r_screen(spec_screen_x(c), spec_screen_y(c), 4) == c,
{
    let z = c.z as int;
    let col = spec_odd_r_col(c);
    let sx = spec_screen_x(c);
    let sy = spec_screen_y(c);
    vstd::arithmetic::div_mod::lemma_mod_division_less_than_divisor(z, 2);
    vstd::arithmetic::div_mod::lemma_fundamental_div_mod(z, 2);
    // the row pitch divides out exactly at a cell center
    assert(4 * sy == 12 * z);
    vstd::arithmetic::div_mod::lemma_div_multiples_vanish(z, 12);
    assert(12 * z / 12 == z);
    let major_y = (4 * sy) / (3 * 4int);
    assert(major_y == z);
    let odd = major_y % 2;
    // the odd-row shift cancels, leaving a whole number of columns
    assert(2 * sx - 4 * odd == 8 * col);
    vstd::arithmetic::div_mod::lemma_div_multiples_vanish(col, 8);
    let major_x = (2 * sx - 4 * odd) / (2 * 4int);
    assert(major_x == col);
}

/// Offset round trip: converting an odd-r address to a cube coordinate and
/// back reproduces the address exactly, for every integer `(col, row)` whose
/// cube form fits the coordinate type.
pub proof fn lemma_offset_round_trip(o: HexOffset)
    requires
        i32::MIN <= spec_offset_x(o) <= i32::MAX,
    ensures
        spec_to_odd_r(spec_from_odd_r(o)) == o,
{
}

/// Offset round trip, cube side: a valid cube coordinate survives the trip
/// through its odd-r offset address.
pub proof fn lemma_cube_offset_round_trip(c: HexCube)
    requires
        c.is_zero_sum(),
        i32::MIN <= spec_odd_r_col(c) <= i32::MAX,
    ensures
        spec_from_odd_r(spec_to_odd_r(c)) == c,
{
}

/// Cube distance between two cells: half the Manhattan distance of the
/// component deltas. The halving applies to the whole sum of the three
/// absolute deltas; for valid (zero-sum) coordinates that sum is even and
/// the distance equals the largest single delta.
pub open spec fn spec_distance(a: HexCube, b: HexCube) -> int {
    (abs(a.x - b.x) + abs(a.y - b.y) + abs(a.z - b.z)) as int / 2
}

/// On valid coordinates the halving is exact: the Manhattan sum of the
/// deltas is even, and the distance equals the largest single delta (the
/// three deltas cancel, so the largest is the sum of the other two).
pub proof fn lemma_distance_is_max_delta(a: HexCube, b: HexCube)
    requires
        a.is_zero_sum(),
        b.is_zero_sum(),
    ensures
        (abs(a.x - b.x) + abs(a.y - b.y) + abs(a.z - b.z)) % 2 == 0,
        spec_distance(a, b) == vstd::math::max(
            abs(a.x - b.x) as int,
            vstd::math::max(abs(a.y - b.y) as int, abs(a.z - b.z) as int),
        ),
{
    let dx = a.x - b.x;
    let dy = a.y - b.y;
    let dz = a.z - b.z;
    assert(dx + dy + dz == 0);
    let m = vstd::math::max(abs(dx) as int, vstd::math::max(abs(dy) as int, abs(dz) as int));
    assert(abs(dx) + abs(dy) + abs(dz) == 2 * m);
}

impl HexCube {
    /// Cube distance between `a` and `b`.
    pub fn distance_between(a: &HexCube, b: &HexCube) -> (r: i32)
        requires
            spec_distance(*a, *b) <= i32::MAX,
        ensures
            r == spec_distance(*a, *b),
            r >= 0,
    {
        let dx: i64 = a.x as i64 - b.x as i64;
        let dy: i64 = a.y as i64 - b.y as i64;
        let dz: i64 = a.z as i64 - b.z as i64;
        let sum: i64 = (if dx >= 0 { dx } else { -dx }) + (if dy >= 0 { dy } else { -dy }) + (
        if dz >= 0 {
            dz
        } else {
            -dz
        });
        let q: u64 = (sum as u64) / 2;
        proof {
            vstd::arithmetic::div_mod::lemma_fundamental_div_mod(sum as int, 2);
            vstd::arithmetic::div_mod::lemma_mod_division_less_than_divisor(sum as int, 2);
        }
        q as i32
    }

    /// Cube distance from `self` to `b`.
    pub fn distance(&self, b: &HexCube) -> (r: i32)
        requires
            spec_distance(*self, *b) <= i32::MAX,
        ensures
            r == spec_distance(*self, *b),
    {
        Self::distance_between(self, b)
    }
}

/// A fractional cube coordinate: the exact rational point
/// `(xn/den, yn/den, zn/den)` reached while interpolating between two cells.
#[derive(Clone, Copy, PartialEq, Eq, Structural, Debug)]
pub struct FracCube {
    pub xn: i64,
    pub yn: i64,
    pub zn: i64,
    pub den: i64,
}

/// Largest coordinate magnitude (in cells) accepted by the rounding and
/// line-drawing operations, so that every intermediate product fits the
/// machine integers.
pub const COORD_LIMIT: i32 = 0x2000_0000;

impl FracCube {
    /// Well-formed fractional coordinate: a positive denominator of at most
    /// `2^31`.
    pub open spec fn wf(self) -> bool {
        1 <= self.den <= 0x8000_0000
    }

    /// Each component lies within `COORD_LIMIT` cells of the origin.
    pub open spec fn in_range(self) -> bool {
        &&& -(COORD_LIMIT as int) * self.den <= self.xn <= (COORD_LIMIT as int) * self.den
        &&& -(COORD_LIMIT as int) * self.den <= self.yn <= (COORD_LIMIT as int) * self.den
        &&& -(COORD_LIMIT as int) * self.den <= self.zn <= (COORD_LIMIT as int) * self.den
    }
}

/// The rational `n/d` rounded to the nearest integer, halves away from zero.
pub open spec fn spec_round_half(n: int, d: int) -> int
    recommends
        1 <= d,
{
    if n >= 0 {
        (2 * n + d) / (2 * d)
    } else {
        -((2 * (-n) + d) / (2 * d))
    }
}

/// Rounding error of `n/d`, scaled by the denominator: how far (in
/// `d`-ths of a cell) the rounded integer sits from the exact rational.
pub open spec fn spec_round_err(n: int, d: int) -> int
    recommends
        1 <= d,
{
    abs(spec_round_half(n, d) * d - n) as int
}

/// The cell nearest to a fractional cube coordinate: each axis is rounded
/// to the nearest integer independently (halves away from zero), then the
/// axis with the strictly largest rounding error is recomputed from the
/// other two so the zero-sum invariant holds. Tie-break: `x` is corrected
/// only when its error strictly exceeds both others, `y` only when its
/// error strictly exceeds the `z` error, and otherwise `z` is corrected.
pub open spec fn spec_round(f: FracCube) -> HexCube
    recommends
        f.wf(),
{
    let rx = spec_round_half(f.xn as int, f.den as int);
    let ry = spec_round_half(f.yn as int, f.den as int);
    let rz = spec_round_half(f.zn as int, f.den as int);
    let dx = spec_round_err(f.xn as int, f.den as int);
    let dy = spec_round_err(f.yn as int, f.den as int);
    let dz = spec_round_err(f.zn as int, f.den as int);
    if dx > dy && dx > dz {
        HexCube { x: (-ry - rz) as i32, y: ry as i32, z: rz as i32 }
    } else if dy > dz {
        HexCube { x: rx as i32, y: (-rx - rz) as i32, z: rz as i32 }
    } else {
        HexCube { x: rx as i32, y: ry as i32, z: (-rx - ry) as i32 }
    }
}

/// Strict upper bound for a floor division: if `a < hi*d` then `a/d < hi`.
proof fn lemma_div_strict_upper(a: int, d: int, hi: int)
    requires
        1 <= d,
        a < hi * d,
    ensures
        a / d < hi,
{
    vstd::arithmetic::div_mod::lemma_fundamental_div_mod(a, d);
    vstd::arithmetic::div_mod::lemma_mod_division_less_than_divisor(a, d);
    if a / d >= hi {
        assert(d * (a / d) >= d * hi) by (nonlinear_arith)
            requires
                a / d >= hi,
                d >= 1,
        ;
        assert(d * hi == hi * d) by (nonlinear_arith);
        assert(false);
    }
}

/// Rounding a whole number of cells is exact: `spec_round_half(k*d, d) == k`.
pub proof fn lemma_round_half_exact(k: int, d: int)
    requires
        1 <= d,
    ensures
        spec_round_half(k * d, d) == k,
{
    if k >= 0 {
        assert(2 * (k * d) + d == k * (2 * d) + d) by (nonlinear_arith);
        vstd::arithmetic::div_mod::lemma_fundamental_div_mod_converse_div(
            2 * (k * d) + d,
            2 * d,
            k,
            d,
        );
    } else {
        assert(k * d < 0) by (nonlinear_arith)
            requires
                k < 0,
                d >= 1,
        ;
        assert(2 * (-(k * d)) + d == (-k) * (2 * d) + d) by (nonlinear_arith);
        vstd::arithmetic::div_mod::lemma_fundamental_div_mod_converse_div(
            2 * (-(k * d)) + d,
            2 * d,
            -k,
            d,
        );
    }
}

/// Nearest-integer rounding respects integer bounds: a rational between
/// `lo` and `hi` (whole cells) rounds to an integer between `lo` and `hi`.
pub proof fn lemma_round_half_between(n: int, d: int, lo: int, hi: int)
    requires
        1 <= d,
        lo * d <= n,
        n <= hi * d,
    ensures
        lo <= spec_round_half(n, d) <= hi,
{
    if n >= 0 {
        let r = (2 * n + d) / (2 * d);
        vstd::arithmetic::div_mod::lemma_div_pos_is_pos(2 * n + d, 2 * d);
        assert(hi >= 0) by (nonlinear_arith)
            requires
                n <= hi * d,
                n >= 0,
                d >= 1,
        ;
        // upper: 2n + d < (hi+1) * 2d
        assert(2 * n + d < (hi + 1) * (2 * d)) by (nonlinear_arith)
            requires
                n <= hi * d,
                d >= 1,
        ;
        lemma_div_strict_upper(2 * n + d, 2 * d, hi + 1);
        if lo > 0 {
            assert(lo * (2 * d) <= 2 * n + d) by (nonlinear_arith)
                requires
                    lo * d <= n,
                    d >= 1,
            ;
            lemma_div_floor_between(2 * n + d, 2 * d, lo, hi + 1);
        }
    } else {
        let m = -n;
        let q = (2 * m + d) / (2 * d);
        vstd::arithmetic::div_mod::lemma_div_pos_is_pos(2 * m + d, 2 * d);
        assert(lo < 0) by (nonlinear_arith)
            requires
                lo * d <= n,
                n < 0,
                d >= 1,
        ;
        // lower for r == -q: q < (-lo) + 1
        assert(2 * m + d < ((-lo) + 1) * (2 * d)) by (nonlinear_arith)
            requires
                lo * d <= n,
                m == -n,
                d >= 1,
        ;
        lemma_div_strict_upper(2 * m + d, 2 * d, (-lo) + 1);
        if hi < 0 {
            assert(((-hi)) * (2 * d) <= 2 * m + d) by (nonlinear_arith)
                requires
                    n <= hi * d,
                    m == -n,
                    d >= 1,
            ;
            lemma_div_floor_between(2 * m + d, 2 * d, -hi, (-lo) + 1);
        }
    }
}

/// Nearest-integer rounding of `n/d`, halves away from zero.
fn round_half(n: i64, d: i64) -> (r: i64)
    requires
        1 <= d <= 0x8000_0000,
        -(COORD_LIMIT as int) * d <= n <= (COORD_LIMIT as int) * d,
    ensures
        r == spec_round_half(n as int, d as int),
        -COORD_LIMIT <= r <= COORD_LIMIT,
{
    proof {
        lemma_round_half_between(n as int, d as int, -(COORD_LIMIT as int), COORD_LIMIT as int);
        assert(-(COORD_LIMIT as int) * d >= -0x1000_0000_0000_0000
            && (COORD_LIMIT as int) * d <= 0x1000_0000_0000_0000) by (nonlinear_arith)
            requires
                1 <= d <= 0x8000_0000,
        ;
    }
    if n >= 0 {
        let q: u64 = ((2 * n + d) as u64) / ((2 * d) as u64);
        q as i64
    } else {
        let m: i64 = -n;
        let q: u64 = ((2 * m + d) as u64) / ((2 * d) as u64);
        -(q as i64)
    }
}

impl HexCube {
    /// The cell nearest to a fractional cube coordinate; see [`spec_round`]
    /// for the rounding and tie-break policy.
    pub fn round(f: FracCube) -> (c: HexCube)
        requires
            f.wf(),
            f.in_range(),
        ensures
            c == spec_round(f),
            c.is_zero_sum(),
    {
        let rx: i64 = round_half(f.xn, f.den);
        let ry: i64 = round_half(f.yn, f.den);
        let rz: i64 = round_half(f.zn, f.den);
        proof {
            assert(rx * f.den <= 0x1000_0000_0000_0000 && rx * f.den >= -0x1000_0000_0000_0000
                && ry * f.den <= 0x1000_0000_0000_0000 && ry * f.den >= -0x1000_0000_0000_0000
                && rz * f.den <= 0x1000_0000_0000_0000 && rz * f.den >= -0x1000_0000_0000_0000)
                by (nonlinear_arith)
                requires
                    1 <= f.den <= 0x8000_0000,
                    -COORD_LIMIT <= rx <= COORD_LIMIT,
                    -COORD_LIMIT <= ry <= COORD_LIMIT,
                    -COORD_LIMIT <= rz <= COORD_LIMIT,
            ;
        }
        let ex: i64 = rx * f.den - f.xn;
        let ey: i64 = ry * f.den - f.yn;
        let ez: i64 = rz * f.den - f.zn;
        let dx: i64 = if ex >= 0 { ex } else { -ex };
        let dy: i64 = if ey >= 0 { ey } else { -ey };
        let dz: i64 = if ez >= 0 { ez } else { -ez };
        if dx > dy && dx > dz {
            HexCube { x: (-ry - rz) as i32, y: ry as i32, z: rz as i32 }
        } else if dy > dz {
            HexCube { x: rx as i32, y: (-rx - rz) as i32, z: rz as i32 }
        } else {
            HexCube { x: rx as i32, y: ry as i32, z: (-rx - ry) as i32 }
        }
    }
}

/// Coordinate bounded by the machine budget of the rounding operations.
pub open spec fn cube_in_limit(c: HexCube) -> bool {
    &&& -COORD_LIMIT <= c.x <= COORD_LIMIT
    &&& -COORD_LIMIT <= c.y <= COORD_LIMIT
    &&& -COORD_LIMIT <= c.z <= COORD_LIMIT
}

/// The exact rational point reached after `i` of `n` equal steps from `a`
/// towards `b`, per axis: `(a*(n-i) + b*i) / n`.
pub open spec fn spec_lerp(a: HexCube, b: HexCube, i: int, n: int) -> FracCube
    recommends
        0 <= i <= n,
        1 <= n <= 0x8000_0000,
{
    FracCube {
        xn: (a.x * (n - i) + b.x * i) as i64,
        yn: (a.y * (n - i) + b.y * i) as i64,
        zn: (a.z * (n - i) + b.z * i) as i64,
        den: n as i64,
    }
}

/// One axis of an interpolation stays within the machine budget: the value
/// `p*(n-i) + q*i` lies between the endpoint magnitudes scaled by `n`.
proof fn lemma_lerp_axis_bounds(p: int, q: int, i: int, n: int)
    requires
        -0x8000_0000 <= p <= 0x8000_0000,
        -0x8000_0000 <= q <= 0x8000_0000,
        0 <= i <= n,
        1 <= n <= 0x8000_0000,
    ensures
        -0x4000_0000_0000_0000 <= p * (n - i) <= 0x4000_0000_0000_0000,
        -0x4000_0000_0000_0000 <= q * i <= 0x4000_0000_0000_0000,
        -0x4000_0000_0000_0000 <= p * (n - i) + q * i <= 0x4000_0000_0000_0000,
        -COORD_LIMIT <= p <= COORD_LIMIT && -COORD_LIMIT <= q <= COORD_LIMIT ==> -(
        COORD_LIMIT as int) * n <= p * (n - i) + q * i <= (COORD_LIMIT as int) * n,
{
    assert(-0x4000_0000_0000_0000 <= p * (n - i) <= 0x4000_0000_0000_0000
        && -0x4000_0000_0000_0000 <= q * i <= 0x4000_0000_0000_0000 && -0x8000_0000_0000_0000
        <= p * (n - i) + q * i && p * (n - i) + q * i <= 0x4000_0000_0000_0000)
        by (nonlinear_arith)
        requires
            -0x8000_0000 <= p <= 0x8000_0000,
            -0x8000_0000 <= q <= 0x8000_0000,
            0 <= i <= n,
            1 <= n <= 0x8000_0000,
    ;
    assert(-0x4000_0000_0000_0000 <= p * (n - i) + q * i) by (nonlinear_arith)
        requires
            -0x8000_0000 <= p <= 0x8000_0000,
            -0x8000_0000 <= q <= 0x8000_0000,
            0 <= i <= n,
            1 <= n <= 0x8000_0000,
    ;
    if -COORD_LIMIT <= p <= COORD_LIMIT && -COORD_LIMIT <= q <= COORD_LIMIT {
        assert(-(COORD_LIMIT as int) * n <= p * (n - i) + q * i <= (COORD_LIMIT as int) * n)
            by (nonlinear_arith)
            requires
                -COORD_LIMIT <= p <= COORD_LIMIT,
                -COORD_LIMIT <= q <= COORD_LIMIT,
                0 <= i <= n,
                1 <= n,
        ;
    }
}

impl HexCube {
    /// The fractional cube coordinate `i/n` of the way from `a` to `b`.
    pub fn lerp_between(a: &HexCube, b: &HexCube, i: i32, n: i32) -> (f: FracCube)
        requires
            0 <= i <= n,
            1 <= n,
        ensures
            f == spec_lerp(*a, *b, i as int, n as int),
            f.wf(),
            cube_in_limit(*a) && cube_in_limit(*b) ==> f.in_range(),
    {
        let i64i: i64 = i as i64;
        let i64n: i64 = n as i64;
        proof {
            lemma_lerp_axis_bounds(a.x as int, b.x as int, i64i as int, i64n as int);
            lemma_lerp_axis_bounds(a.y as int, b.y as int, i64i as int, i64n as int);
            lemma_lerp_axis_bounds(a.z as int, b.z as int, i64i as int, i64n as int);
        }
        FracCube {
            xn: a.x as i64 * (i64n - i64i) + b.x as i64 * i64i,
            yn: a.y as i64 * (i64n - i64i) + b.y as i64 * i64i,
            zn: a.z as i64 * (i64n - i64i) + b.z as i64 * i64i,
            den: i64n,
        }
    }
}

/// Step zero of a line starts exactly at the source cell: interpolating at
/// `0/n` gives whole numbers, every axis rounds exactly, and the tie-break
/// recomputes `z` to the value it already has.
pub proof fn lemma_line_start(a: HexCube, b: HexCube, n: int)
    requires
        a.is_zero_sum(),
        1 <= n <= 0x8000_0000,
    ensures
        spec_round(spec_lerp(a, b, 0, n)) == a,
{
    let f = spec_lerp(a, b, 0, n);
    assert(-0x4000_0000_0000_0000 <= a.x * n <= 0x4000_0000_0000_0000
        && -0x4000_0000_0000_0000 <= a.y * n <= 0x4000_0000_0000_0000
        && -0x4000_0000_0000_0000 <= a.z * n <= 0x4000_0000_0000_0000) by (nonlinear_arith)
        requires
            -0x8000_0000 <= a.x <= 0x8000_0000,
            -0x8000_0000 <= a.y <= 0x8000_0000,
            -0x8000_0000 <= a.z <= 0x8000_0000,
            1 <= n <= 0x8000_0000,
    ;
    assert(f.xn == a.x * n && f.yn == a.y * n && f.zn == a.z * n && f.den == n);
    lemma_round_half_exact(a.x as int, n);
    lemma_round_half_exact(a.y as int, n);
    lemma_round_half_exact(a.z as int, n);
}

impl HexCube {
    /// All cells of the straight line from `a` towards `b`: exactly
    /// `spec_distance(a, b)` cells, starting at `a` and stopping one step
    /// short of `b`. Cell `k` is the exact interpolation at `k/n` rounded to
    /// the nearest valid cell.
    pub fn linedraw_between(a: &HexCube, b: &HexCube) -> (r: Vec<HexCube>)
        requires
            a.is_zero_sum(),
            b.is_zero_sum(),
            cube_in_limit(*a),
            cube_in_limit(*b),
        ensures
            r@.len() == spec_distance(*a, *b),
            forall|k: int|
                0 <= k < r@.len() ==> r@[k] == spec_round(
                    spec_lerp(*a, *b, k, spec_distance(*a, *b)),
                ),
            forall|k: int| 0 <= k < r@.len() ==> (#[trigger] r@[k]).is_zero_sum(),
            r@.len() > 0 ==> r@[0] == *a,
    {
        let n: i32 = HexCube::distance_between(a, b);
        let mut out: Vec<HexCube> = Vec::new();
        let mut idx: i32 = 0;
        while idx < n
            invariant
                0 <= idx <= n,
                n == spec_distance(*a, *b),
                a.is_zero_sum(),
                b.is_zero_sum(),
                cube_in_limit(*a),
                cube_in_limit(*b),
                out@.len() == idx,
                forall|k: int|
                    0 <= k < idx ==> out@[k] == spec_round(spec_lerp(*a, *b, k, n as int)),
                forall|k: int| 0 <= k < idx ==> (#[trigger] out@[k]).is_zero_sum(),
            decreases n - idx,
        {
            let f = HexCube::lerp_between(a, b, idx, n);
            let c = HexCube::round(f);
            out.push(c);
            idx = idx + 1;
        }
        proof {
            if n > 0 {
                lemma_line_start(*a, *b, n as int);
            }
        }
        out
    }
}

/// Walker over the cells of a line, from `src` towards `dst`: yields the
/// same `spec_distance(src, dst)` cells as `linedraw_between`, one per call.
pub struct CubeLinedraw {
    a: HexCube,
    b: HexCube,
    n: i32,
    i: i32,
}

impl CubeLinedraw {
    /// Source cell of the walk.
    pub closed spec fn src(self) -> HexCube {
        self.a
    }

    /// Destination cell of the walk (never yielded).
    pub closed spec fn dst(self) -> HexCube {
        self.b
    }

    /// Number of cells the walk yields in total.
    pub closed spec fn total(self) -> int {
        self.n as int
    }

    /// Number of cells yielded so far.
    pub closed spec fn pos(self) -> int {
        self.i as int
    }

    /// Internal consistency: endpoints are valid bounded cells, the length
    /// is their distance, and the position never leaves `[0, total]`.
    pub closed spec fn wf(self) -> bool {
        &&& self.a.is_zero_sum()
        &&& self.b.is_zero_sum()
        &&& cube_in_limit(self.a)
        &&& cube_in_limit(self.b)
        &&& self.n == spec_distance(self.a, self.b)
        &&& 0 <= self.i <= self.n
    }

    pub fn new(a: HexCube, b: HexCube) -> (it: CubeLinedraw)
        requires
            a.is_zero_sum(),
            b.is_zero_sum(),
            cube_in_limit(a),
            cube_in_limit(b),
        ensures
            it.wf(),
            it.src() == a,
            it.dst() == b,
            it.total() == spec_distance(a, b),
            it.pos() == 0,
    {
        let n: i32 = HexCube::distance_between(&a, &b);
        CubeLinedraw { a, b, n, i: 0 }
    }

    /// The next cell of the line, or `None` once `total()` cells have been
    /// yielded.
    pub fn next(&mut self) -> (r: Option<HexCube>)
        requires
            old(self).wf(),
        ensures
            final(self).wf(),
            final(self).src() == old(self).src(),
            final(self).dst() == old(self).dst(),
            final(self).total() == old(self).total(),
            old(self).pos() == old(self).total() ==> r is None && final(self).pos() == old(
                self,
            ).pos(),
            old(self).pos() < old(self).total() ==> {
                &&& r == Some(
                    spec_round(
                        spec_lerp(
                            old(self).src(),
                            old(self).dst(),
                            old(self).pos(),
                            old(self).total(),
                        ),
                    ),
                )
                &&& final(self).pos() == old(self).pos() + 1
            },
    {
        if self.i >= self.n {
            None
        } else {
            let f = HexCube::lerp_between(&self.a, &self.b, self.i, self.n);
            let c = HexCube::round(f);
            self.i = self.i + 1;
            Some(c)
        }
    }
}

/// Line endpoints: a line from a cell to itself has no cells, and a line to
/// a different cell has exactly the distance many cells and starts at the
/// source cell.
pub proof fn lemma_line_draw_endpoints(a: HexCube, b: HexCube)
    requires
        a.is_zero_sum(),
        b.is_zero_sum(),
    ensures
        spec_distance(a, a) == 0,
        1 <= spec_distance(a, b) <= 0x8000_0000 ==> spec_round(
            spec_lerp(a, b, 0, spec_distance(a, b)),
        ) == a,
{
    if 1 <= spec_distance(a, b) <= 0x8000_0000 {
        lemma_line_start(a, b, spec_distance(a, b));
    }
}

/// Tie-break, leading axis: when the `x` rounding error strictly exceeds
/// both others, `y` and `z` keep their independently rounded values and `x`
/// is recomputed from them.
pub proof fn lemma_round_corrects_largest_x(f: FracCube)
    requires
        f.wf(),
        f.in_range(),
        spec_round_err(f.xn as int, f.den as int) > spec_round_err(f.yn as int, f.den as int),
        spec_round_err(f.xn as int, f.den as int) > spec_round_err(f.zn as int, f.den as int),
    ensures
        spec_round(f).y == spec_round_half(f.yn as int, f.den as int),
        spec_round(f).z == spec_round_half(f.zn as int, f.den as int),
        spec_round(f).x == -spec_round(f).y - spec_round(f).z,
{
    lemma_round_half_between(
        f.yn as int,
        f.den as int,
        -(COORD_LIMIT as int),
        COORD_LIMIT as int,
    );
    lemma_round_half_between(
        f.zn as int,
        f.den as int,
        -(COORD_LIMIT as int),
        COORD_LIMIT as int,
    );
}

/// Tie-break, trailing axes: when the `y` and `z` rounding errors are equal
/// (and `x` does not strictly dominate), `x` and `y` keep their
/// independently rounded values and `z` is the axis recomputed from them.
pub proof fn lemma_round_tie_corrects_z(f: FracCube)
    requires
        f.wf(),
        f.in_range(),
        spec_round_err(f.yn as int, f.den as int) == spec_round_err(f.zn as int, f.den as int),
        spec_round_err(f.xn as int, f.den as int) <= spec_round_err(f.yn as int, f.den as int),
    ensures
        spec_round(f).x == spec_round_half(f.xn as int, f.den as int),
        spec_round(f).y == spec_round_half(f.yn as int, f.den as int),
        spec_round(f).z == -spec_round(f).x - spec_round(f).y,
{
    lemma_round_half_between(
        f.xn as int,
        f.den as int,
        -(COORD_LIMIT as int),
        COORD_LIMIT as int,
    );
    lemma_round_half_between(
        f.yn as int,
        f.den as int,
        -(COORD_LIMIT as int),
        COORD_LIMIT as int,
    );
}

impl HexAxial {
    /// Rendering position used for axial addresses, in quarter-cell units:
    /// the whole row count is folded into the column, less the odd-row
    /// shift, with the three-quarter row pitch. A skewed placement kept for
    /// axial-addressed layouts; it is not the inverse of
    /// [`HexAxial::from_odd_r`].
    pub fn to_odd_r(&self) -> (p: ScreenPos)
        ensures
            p.x == 4 * (self.q + self.r) - 2 * ((self.r as int) % 2),
            p.y == 3 * self.r,
    {
        let q64: i64 = self.q as i64;
        let r64: i64 = self.r as i64;
        let fl: i64 = div2_floor(r64);
        let odd: i64 = r64 - 2 * fl;
        proof {
            vstd::arithmetic::div_mod::lemma_fundamental_div_mod(r64 as int, 2);
            vstd::arithmetic::div_mod::lemma_mod_division_less_than_divisor(r64 as int, 2);
        }
        ScreenPos { x: 4 * (q64 + r64) - 2 * odd, y: 3 * r64 }
    }
}

} // verus!
