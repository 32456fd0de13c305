use vstd::prelude::*;

use crate::random::draw_i32;
use crate::random::draw_u64;

verus! {

/// Number of position units in one length unit: coordinates, radii and
/// speeds are fixed-point values in thousandths.
pub const SCALE: i64 = 1000;

/// Radius of the spherical domain, in position units.
pub const DOMAIN_RADIUS: i64 = 500_000;

/// Edge of one grid cell of the broad phase, in position units.
pub const CELL_SIZE: i64 = 10_000;

/// Largest distance from the origin at which initial positions are drawn.
pub const SPAWN_RADIUS: u64 = 400_000;

/// Magnitude bound of the raw components drawn for a random direction.
const DRAW_BOUND: i32 = 32768;

/// How often a random direction is drawn again when the draw is the zero vector.
const DRAW_ATTEMPTS: u32 = 64;

/// A point or displacement in space, in fixed-point position units.
#[derive(Debug, Clone, Copy, PartialEq, Eq, Structural)]
pub struct Vector3d {
    pub x: i32,
    pub y: i32,
    pub z: i32,
}

/// The grid cell that holds a position: each coordinate divided by the cell
/// size and floored.
#[derive(Debug, Clone, Copy, PartialEq, Eq, Hash, Structural)]
pub struct VectorInt3d {
    pub x: i32,
    pub y: i32,
    pub z: i32,
}

pub open spec fn sq(a: int) -> int {
    a * a
}

pub open spec fn norm2(x: int, y: int, z: int) -> int {
    sq(x) + sq(y) + sq(z)
}

/// Division that truncates toward zero, as integer division in Rust does.
pub open spec fn trunc_div(a: int, d: int) -> int {
    if a >= 0 {
        a / d
    } else {
        -((-a) / d)
    }
}

/// `c * num / den`, truncated toward zero.
pub open spec fn scaled(c: int, num: int, den: int) -> int {
    trunc_div(c * num, den)
}

pub open spec fn in_domain(x: int, y: int, z: int) -> bool {
    norm2(x, y, z) <= sq(DOMAIN_RADIUS as int)
}

impl Vector3d {
    pub open spec fn norm2(self) -> int {
        norm2(self.x as int, self.y as int, self.z as int)
    }

    pub open spec fn dist2(self, other: Vector3d) -> int {
        norm2(
            self.x - other.x,
            self.y - other.y,
            self.z - other.z,
        )
    }

    pub open spec fn cell(self) -> VectorInt3d {
        VectorInt3d {
            x: (self.x as int / CELL_SIZE as int) as i32,
            y: (self.y as int / CELL_SIZE as int) as i32,
            z: (self.z as int / CELL_SIZE as int) as i32,
        }
    }

    pub open spec fn mid(self, other: Vector3d) -> Vector3d {
        Vector3d {
            x: ((self.x + other.x) / 2) as i32,
            y: ((self.y + other.y) / 2) as i32,
            z: ((self.z + other.z) / 2) as i32,
        }
    }

    pub fn new(x: i32, y: i32, z: i32) -> (r: Vector3d)
        ensures
            r == (Vector3d { x, y, z }),
    {
        Vector3d { x, y, z }
    }

    /// The scalar product.
    pub fn dot(&self, other: &Self) -> (r: i128)
        ensures
            r == self.x * other.x + self.y * other.y + self.z * other.z,
    {
        proof {
            lemma_i32_product(self.x as int, other.x as int);
            lemma_i32_product(self.y as int, other.y as int);
            lemma_i32_product(self.z as int, other.z as int);
        }
        (self.x as i128) * (other.x as i128) + (self.y as i128) * (other.y as i128) + (self.z
            as i128) * (other.z as i128)
    }

    /// The squared Euclidean distance to `other`.
    pub fn distance_pow2(&self, other: &Self) -> (r: i128)
        ensures
            r == self.dist2(*other),
    {
        let dx = self.x as i128 - other.x as i128;
        let dy = self.y as i128 - other.y as i128;
        let dz = self.z as i128 - other.z as i128;
        proof {
            lemma_diff_square(dx as int);
            lemma_diff_square(dy as int);
            lemma_diff_square(dz as int);
        }
        dx * dx + dy * dy + dz * dz
    }

    /// The Euclidean distance to `other`, rounded down.
    pub fn distance(&self, other: &Self) -> (r: u128)
        ensures
            r * r <= self.dist2(*other) < (r + 1) * (r + 1),
    {
        let d2 = self.distance_pow2(other);
        proof {
            lemma_diff_square(self.x - other.x);
            lemma_diff_square(self.y - other.y);
            lemma_diff_square(self.z - other.z);
        }
        floor_sqrt(d2 as u128)
    }

    /// The grid cell of this position.
    pub fn into_vectorint(self) -> (r: VectorInt3d)
        ensures
            r == self.cell(),
    {
        let x = floor_div(self.x as i64, CELL_SIZE);
        let y = floor_div(self.y as i64, CELL_SIZE);
        let z = floor_div(self.z as i64, CELL_SIZE);
        proof {
            lemma_cell_bounds(self.x as int);
            lemma_cell_bounds(self.y as int);
            lemma_cell_bounds(self.z as int);
        }
        VectorInt3d { x: x as i32, y: y as i32, z: z as i32 }
    }

    /// The point halfway between two positions, rounded down on each axis.
    pub fn midpoint(&self, other: &Self) -> (r: Vector3d)
        ensures
            r == self.mid(*other),
    {
        let x = floor_div(self.x as i64 + other.x as i64, 2);
        let y = floor_div(self.y as i64 + other.y as i64, 2);
        let z = floor_div(self.z as i64 + other.z as i64, 2);
        Vector3d { x: x as i32, y: y as i32, z: z as i32 }
    }

    /// A random direction: a vector of length one length unit (`SCALE`
    /// position units) drawn from the unit sphere, each coordinate rounded
    /// toward zero. A raw draw shorter than `SCALE`, which normalising would
    /// round too coarsely, is drawn again; after `DRAW_ATTEMPTS` such draws
    /// the x axis is taken.
    pub fn get_random_unitary(rng: &mut fastrand::Rng) -> (r: Vector3d)
        ensures
            r.norm2() <= sq(SCALE as int),
            sq(SCALE as int - 3) <= r.norm2(),
    {
        let mut attempts: u32 = 0;
        while attempts < DRAW_ATTEMPTS
            decreases DRAW_ATTEMPTS - attempts,
        {
            let cx = draw_i32(rng, -DRAW_BOUND, DRAW_BOUND);
            let cy = draw_i32(rng, -DRAW_BOUND, DRAW_BOUND);
            let cz = draw_i32(rng, -DRAW_BOUND, DRAW_BOUND);
            proof {
                lemma_draw_square(cx as int);
                lemma_draw_square(cy as int);
                lemma_draw_square(cz as int);
            }
            let n2: u64 = (cx as i64 * cx as i64 + cy as i64 * cy as i64 + cz as i64
                * cz as i64) as u64;
            assert(n2 == norm2(cx as int, cy as int, cz as int));
            if n2 >= 1_000_000 {
                let len = ceil_sqrt(n2);
                let x = scale_component(cx as i64, SCALE as u64, len);
                let y = scale_component(cy as i64, SCALE as u64, len);
                let z = scale_component(cz as i64, SCALE as u64, len);
                proof {
                    lemma_scaled_norm(
                        x as int,
                        y as int,
                        z as int,
                        cx as int,
                        cy as int,
                        cz as int,
                        SCALE as int,
                        len as int,
                    );
                    lemma_sq_nonneg(x as int);
                    lemma_sq_nonneg(y as int);
                    lemma_sq_nonneg(z as int);
                    lemma_square_bound(x as int, SCALE as int);
                    lemma_square_bound(y as int, SCALE as int);
                    lemma_square_bound(z as int, SCALE as int);
                }
                let length2: i64 = (x * x + y * y + z * z) as i64;
                if length2 >= 997 * 997 {
                    return Vector3d { x: x as i32, y: y as i32, z: z as i32 };
                }
            }
            attempts = attempts + 1;
        }
        Vector3d { x: SCALE as i32, y: 0, z: 0 }
    }
}

/// A random position inside the domain: a random direction scaled by a
/// distance drawn uniformly below `SPAWN_RADIUS`.
pub fn generate_random_position(rng: &mut fastrand::Rng) -> (r: Vector3d)
    ensures
        r.norm2() <= sq(SPAWN_RADIUS as int),
        in_domain(r.x as int, r.y as int, r.z as int),
{
    let dir = Vector3d::get_random_unitary(rng);
    let d = draw_u64(rng, 0, SPAWN_RADIUS);
    let x = scale_component(dir.x as i64, d, SCALE as u64);
    let y = scale_component(dir.y as i64, d, SCALE as u64);
    let z = scale_component(dir.z as i64, d, SCALE as u64);
    proof {
        lemma_scaled_norm(
            x as int,
            y as int,
            z as int,
            dir.x as int,
            dir.y as int,
            dir.z as int,
            d as int,
            SCALE as int,
        );
        lemma_sq_nonneg(x as int);
        lemma_sq_nonneg(y as int);
        lemma_sq_nonneg(z as int);
        lemma_sq_monotone(d as int, SPAWN_RADIUS as int);
        lemma_sq_monotone(SPAWN_RADIUS as int, DOMAIN_RADIUS as int);
        lemma_square_bound(x as int, SPAWN_RADIUS as int);
        lemma_square_bound(y as int, SPAWN_RADIUS as int);
        lemma_square_bound(z as int, SPAWN_RADIUS as int);
    }
    Vector3d { x: x as i32, y: y as i32, z: z as i32 }
}

/// Floor division by a positive divisor.
pub fn floor_div(x: i64, d: i64) -> (r: i64)
    requires
        d > 0,
    ensures
        r == x / d,
{
    if x >= 0 {
        x / d
    } else {
        let q: i64 = (-(x + 1)) / d;
        proof {
            let a: int = -(x + 1);
            assert(x as int / d as int == -(a / d as int) - 1) by (nonlinear_arith)
                requires
                    d > 0,
                    x < 0,
                    a == -(x + 1),
            ;
        }
        -q - 1
    }
}

/// The least `r` with `r * r >= n`.
pub fn ceil_sqrt(n: u64) -> (r: u64)
    requires
        n > 0,
    ensures
        r > 0,
        r * r >= n,
        (r - 1) * (r - 1) < n,
        r <= 0x1_0000_0000,
{
    let mut lo: u64 = 0;
    let mut hi: u64 = 0x1_0000_0000;
    assert(hi * hi >= n) by (nonlinear_arith)
        requires
            hi == 0x1_0000_0000,
            n <= u64::MAX,
    ;
    while lo + 1 < hi
        invariant
            lo < hi <= 0x1_0000_0000,
            (lo as int) * (lo as int) < n,
            (hi as int) * (hi as int) >= n,
        decreases hi - lo,
    {
        let m = lo + (hi - lo) / 2;
        assert(m * m < 0x1_0000_0000 * 0x1_0000_0000) by (nonlinear_arith)
            requires
                m < 0x1_0000_0000,
        ;
        if m * m >= n {
            hi = m;
        } else {
            lo = m;
        }
    }
    hi
}

/// The largest `r` with `r * r <= n`, for `n` below `2^68`.
pub fn floor_sqrt(n: u128) -> (r: u128)
    requires
        n < 0x10_0000_0000_0000_0000,
    ensures
        r * r <= n < (r + 1) * (r + 1),
{
    let mut lo: u128 = 0;
    let mut hi: u128 = 0x4_0000_0000;
    assert(hi * hi > n) by (nonlinear_arith)
        requires
            hi == 0x4_0000_0000,
            n < 0x10_0000_0000_0000_0000,
    ;
    while lo + 1 < hi
        invariant
            lo < hi <= 0x4_0000_0000,
            lo * lo <= n,
            hi * hi > n,
        decreases hi - lo,
    {
        let m = lo + (hi - lo) / 2;
        assert(m * m <= 0x4_0000_0000 * 0x4_0000_0000) by (nonlinear_arith)
            requires
                m <= 0x4_0000_0000,
        ;
        if m * m <= n {
            lo = m;
        } else {
            hi = m;
        }
    }
    lo
}

/// `c * num / den`, truncated toward zero.
pub fn scale_component(c: i64, num: u64, den: u64) -> (r: i128)
    requires
        den > 0,
        -0x8000_0000 <= c <= 0x8000_0000,
        num <= 0x1_0000_0000,
    ensures
        r == scaled(c as int, num as int, den as int),
        sq(r as int) * sq(den as int) <= sq(c as int) * sq(num as int),
        -(0x8000_0000_0000_0000int / den as int) <= r <= 0x8000_0000_0000_0000int / den as int,
{
    let mag: u128 = if c >= 0 {
        c as u128
    } else {
        (-c) as u128
    };
    assert(mag * (num as int) <= 0x8000_0000 * 0x1_0000_0000) by (nonlinear_arith)
        requires
            mag <= 0x8000_0000,
            num <= 0x1_0000_0000,
    ;
    let q = mag * (num as u128) / (den as u128);
    proof {
        lemma_div_square(mag as int * num as int, den as int);
        assert(q <= mag * (num as int)) by (nonlinear_arith)
            requires
                q == mag * (num as int) / (den as int),
                den > 0,
                mag * num >= 0,
        ;
        assert(sq(mag as int) == sq(c as int)) by (nonlinear_arith)
            requires
                mag == c || mag == -c,
        ;
        assert(sq(mag as int * num as int) == sq(mag as int) * sq(num as int)) by (
        nonlinear_arith);
        assert(sq(-(q as int)) == sq(q as int)) by (nonlinear_arith);
        vstd::arithmetic::div_mod::lemma_div_is_ordered(
            mag * num as int,
            0x8000_0000_0000_0000,
            den as int,
        );
        if c >= 0 {
            assert(c * num >= 0) by (nonlinear_arith)
                requires
                    c >= 0,
                    num >= 0,
            ;
        } else {
            assert(-(c * num) == mag * num) by (nonlinear_arith)
                requires
                    mag == -c,
            ;
            assert(c * num <= 0) by (nonlinear_arith)
                requires
                    c < 0,
                    num >= 0,
            ;
            if c * num == 0 {
                assert(mag * num == 0);
            }
        }
    }
    if c >= 0 {
        q as i128
    } else {
        -(q as i128)
    }
}

proof fn lemma_draw_square(c: int)
    requires
        -DRAW_BOUND <= c < DRAW_BOUND,
    ensures
        0 <= c * c <= 0x4000_0000,
{
    assert(0 <= c * c <= 0x4000_0000) by (nonlinear_arith)
        requires
            -32768 <= c < 32768,
    ;
}

proof fn lemma_i32_product(a: int, b: int)
    requires
        -0x8000_0000 <= a < 0x8000_0000,
        -0x8000_0000 <= b < 0x8000_0000,
    ensures
        -0x4000_0000_0000_0000 <= a * b <= 0x4000_0000_0000_0000,
{
    assert(-0x4000_0000_0000_0000 <= a * b <= 0x4000_0000_0000_0000) by (nonlinear_arith)
        requires
            -0x8000_0000 <= a < 0x8000_0000,
            -0x8000_0000 <= b < 0x8000_0000,
    ;
}

proof fn lemma_diff_square(d: int)
    requires
        -0x1_0000_0000 <= d <= 0x1_0000_0000,
    ensures
        0 <= d * d <= 0x1_0000_0000_0000_0000,
{
    assert(0 <= d * d <= 0x1_0000_0000_0000_0000) by (nonlinear_arith)
        requires
            -0x1_0000_0000 <= d <= 0x1_0000_0000,
    ;
}

proof fn lemma_cell_bounds(c: int)
    requires
        i32::MIN <= c <= i32::MAX,
    ensures
        i32::MIN <= c / CELL_SIZE as int <= i32::MAX,
{
    assert(i32::MIN <= c / 10000 <= i32::MAX) by (nonlinear_arith)
        requires
            i32::MIN <= c <= i32::MAX,
    ;
}

/// For a non-negative `a`, `(a / d)² · d² <= a²`.
proof fn lemma_div_square(a: int, d: int)
    requires
        a >= 0,
        d > 0,
    ensures
        sq(a / d) * sq(d) <= sq(a),
{
    let q = a / d;
    assert(q * d <= a) by (nonlinear_arith)
        requires
            q == a / d,
            d > 0,
            a >= 0,
    ;
    assert(q >= 0) by (nonlinear_arith)
        requires
            q == a / d,
            d > 0,
            a >= 0,
    ;
    assert(sq(q) * sq(d) == (q * d) * (q * d)) by (nonlinear_arith);
    assert((q * d) * (q * d) <= a * a) by (nonlinear_arith)
        requires
            0 <= q * d <= a,
    ;
}

/// Components each scaled by at most `num / len`, where `len²` bounds the
/// squared length of the originals, form a vector no longer than `num`.
proof fn lemma_scaled_norm(x: int, y: int, z: int, cx: int, cy: int, cz: int, num: int, len: int)
    requires
        len > 0,
        norm2(cx, cy, cz) <= sq(len),
        sq(x) * sq(len) <= sq(cx) * sq(num),
        sq(y) * sq(len) <= sq(cy) * sq(num),
        sq(z) * sq(len) <= sq(cz) * sq(num),
    ensures
        norm2(x, y, z) <= sq(num),
{
    let l2 = sq(len);
    let n2 = sq(num);
    assert(l2 > 0) by (nonlinear_arith)
        requires
            l2 == len * len,
            len > 0,
    ;
    assert(n2 >= 0) by (nonlinear_arith)
        requires
            n2 == num * num,
    ;
    assert(norm2(x, y, z) * l2 <= norm2(cx, cy, cz) * n2) by (nonlinear_arith)
        requires
            sq(x) * l2 <= sq(cx) * n2,
            sq(y) * l2 <= sq(cy) * n2,
            sq(z) * l2 <= sq(cz) * n2,
            norm2(x, y, z) == sq(x) + sq(y) + sq(z),
            norm2(cx, cy, cz) == sq(cx) + sq(cy) + sq(cz),
    ;
    assert(norm2(cx, cy, cz) * n2 <= l2 * n2) by (nonlinear_arith)
        requires
            norm2(cx, cy, cz) <= l2,
            n2 >= 0,
    ;
    assert(norm2(x, y, z) <= n2) by (nonlinear_arith)
        requires
            norm2(x, y, z) * l2 <= l2 * n2,
            l2 > 0,
    ;
}

pub proof fn lemma_sq_nonneg(x: int)
    ensures
        sq(x) >= 0,
{
    assert(x * x >= 0) by (nonlinear_arith);
}

pub proof fn lemma_sq_monotone(a: int, b: int)
    requires
        0 <= a <= b,
    ensures
        sq(a) <= sq(b),
{
    assert(a * a <= b * b) by (nonlinear_arith)
        requires
            0 <= a <= b,
    ;
}

/// A square no larger than `b²` has its root within `-b..=b`.
pub proof fn lemma_square_bound(x: int, b: int)
    requires
        b >= 0,
        sq(x) <= sq(b),
    ensures
        -b <= x <= b,
{
    if x > b {
        assert(sq(x) > sq(b)) by (nonlinear_arith)
            requires
                x > b,
                b >= 0,
        ;
    }
    if x < -b {
        assert(sq(x) > sq(b)) by (nonlinear_arith)
            requires
                x < -b,
                b >= 0,
        ;
    }
}

} // verus!
