//! A single self-propelled particle and its update rules.
use vstd::prelude::*;

use vstd::arithmetic::div_mod::{lemma_fundamental_div_mod, lemma_fundamental_div_mod_converse};
use vstd::arithmetic::power2::{lemma2_to64, lemma_pow2_strictly_increases, lemma_pow2_unfold, pow2};

use crate::fixed::{isqrt, lemma_root_exists, root, ONE, TORUS};

verus! {

/// Largest magnitude a heading component may reach: a unit heading
/// (at most [`ONE`]) plus one `i32` of noise stays well below it.
pub const HEADING_LIMIT: i64 = 0x1_0000_0000;

/// Largest number of birds whose headings can be summed exactly in the
/// 128-bit accumulators of [`Bird::update_direction`].
pub const MAX_BIRDS: usize = 0x100_0000;

/// One bird: position `r` on the torus, heading `v`, speed `v0`
/// (in position units per step along a unit heading).
#[derive(Clone, Copy, Debug, PartialEq, Eq)]
pub struct Bird {
    pub r: [u32; 2],
    pub v: [i64; 2],
    pub v0: u32,
}

/// The summed headings cancel exactly, so they have no direction.
#[derive(Clone, Copy, Debug, PartialEq, Eq)]
pub struct DegenerateHeading;

/// `a * num / den` rounded toward zero.
pub open spec fn trunc_ratio(a: int, num: nat, den: nat) -> int {
    if a >= 0 {
        (a * num) / (den as int)
    } else {
        -(((-a) * num) / (den as int))
    }
}

/// Reduces a coordinate onto the torus.
pub open spec fn wrap(x: int) -> int {
    x % (TORUS as int)
}

/// Distance along one axis to the nearest periodic image.
pub open spec fn axis_gap(a: u32, b: u32) -> nat {
    let d: nat = if a >= b { (a - b) as nat } else { (b - a) as nat };
    if d <= TORUS - d { d } else { (TORUS - d) as nat }
}

/// Squared distance between two positions, each axis measured to the
/// nearest periodic image.
pub open spec fn dist2_spec(p: [u32; 2], q: [u32; 2]) -> nat {
    axis_gap(p[0], q[0]) * axis_gap(p[0], q[0]) + axis_gap(p[1], q[1]) * axis_gap(p[1], q[1])
}

/// Sum of the first heading components.
pub open spec fn sum_x(bs: Seq<Bird>) -> int
    decreases bs.len(),
{
    if bs.len() == 0 {
        0
    } else {
        sum_x(bs.drop_last()) + bs.last().v[0]
    }
}

/// Sum of the second heading components.
pub open spec fn sum_y(bs: Seq<Bird>) -> int
    decreases bs.len(),
{
    if bs.len() == 0 {
        0
    } else {
        sum_y(bs.drop_last()) + bs.last().v[1]
    }
}

/// Component `c` of a vector whose squared length is `s`, scaled so that the
/// vector has length [`ONE`]: the square root of `c² · ONE² / s`, rounded
/// down, with the sign of `c`.
pub open spec fn unit_of(c: int, s: int) -> int {
    let m = root(((c * c * (ONE * ONE)) / s) as nat);
    if c >= 0 {
        m as int
    } else {
        -(m as int)
    }
}

/// One component of `(x, y)` scaled to a heading of length [`ONE`].
pub open spec fn unit_part(c: int, x: int, y: int) -> int {
    unit_of(c, x * x + y * y)
}

/// `v` has length [`ONE`] up to the rounding of its two components.
pub open spec fn unit_length(v: [i64; 2]) -> bool {
    ONE * ONE - 4 * ONE - 2 < v[0] * v[0] + v[1] * v[1] <= ONE * ONE
}

/// The heading a bird takes from the birds `bs` and the noise: the mean
/// direction of their headings, plus the noise. `None` where the headings
/// cancel.
pub open spec fn aligned_heading(bs: Seq<Bird>, noise: [i32; 2]) -> Option<[i64; 2]> {
    let sx = sum_x(bs);
    let sy = sum_y(bs);
    if sx == 0 && sy == 0 {
        None
    } else {
        Some([(unit_part(sx, sx, sy) + noise[0]) as i64, (unit_part(sy, sx, sy) + noise[1]) as i64])
    }
}

/// The coordinate reached from `p` after one step along heading component `h`.
pub open spec fn advance_spec(p: u32, h: i64, v0: u32) -> int {
    wrap(p + trunc_ratio(h as int, v0 as nat, ONE as nat))
}

impl Bird {
    /// Headings are small enough to be summed and scaled without overflow.
    pub open spec fn wf(&self) -> bool {
        &&& -HEADING_LIMIT <= self.v[0] <= HEADING_LIMIT
        &&& -HEADING_LIMIT <= self.v[1] <= HEADING_LIMIT
    }

    pub fn new(r: [u32; 2], v: [i64; 2], v0: u32) -> (b: Bird)
        ensures
            b.r == r,
            b.v == v,
            b.v0 == v0,
    {
        Bird { r, v, v0 }
    }

    /// Turns toward the mean heading of `birds`, then adds `noise`.
    /// Where the headings of `birds` cancel exactly (or `birds` is empty) the
    /// heading is left as it was and `DegenerateHeading` is returned.
    pub fn update_direction(&mut self, birds: &[Bird], noise: [i32; 2]) -> (res: Result<(), DegenerateHeading>)
        requires
            birds@.len() <= MAX_BIRDS,
            forall|i: int| 0 <= i < birds@.len() ==> (#[trigger] birds@[i]).wf(),
        ensures
            final(self).r == old(self).r,
            final(self).v0 == old(self).v0,
            old(self).wf() ==> final(self).wf(),
            match aligned_heading(birds@, noise) {
                Some(h) => res is Ok && final(self).v == h,
                None => res is Err && final(self).v == old(self).v,
            },
    {
        let mut dx: i128 = 0;
        let mut dy: i128 = 0;
        let mut i: usize = 0;
        while i < birds.len()
            invariant
                i <= birds@.len() <= MAX_BIRDS,
                forall|k: int| 0 <= k < birds@.len() ==> (#[trigger] birds@[k]).wf(),
                dx == sum_x(birds@.take(i as int)),
                dy == sum_y(birds@.take(i as int)),
                -(i * HEADING_LIMIT) <= dx <= i * HEADING_LIMIT,
                -(i * HEADING_LIMIT) <= dy <= i * HEADING_LIMIT,
            decreases birds@.len() - i,
        {
            let b = birds[i];
            proof {
                assert(birds@.take(i + 1).drop_last() =~= birds@.take(i as int));
                assert(birds@[i as int].wf());
            }
            dx = dx + b.v[0] as i128;
            dy = dy + b.v[1] as i128;
            i = i + 1;
            assert(-(i * HEADING_LIMIT) <= dx <= i * HEADING_LIMIT) by (nonlinear_arith)
                requires
                    -((i - 1) * HEADING_LIMIT) <= dx - b.v[0] <= (i - 1) * HEADING_LIMIT,
                    -HEADING_LIMIT <= b.v[0] <= HEADING_LIMIT,
            ;
        }
        assert(birds@.take(i as int) =~= birds@);
        if dx == 0 && dy == 0 {
            return Err(DegenerateHeading);
        }
        let ax: u128 = if dx >= 0 { dx as u128 } else { (-dx) as u128 };
        let ay: u128 = if dy >= 0 { dy as u128 } else { (-dy) as u128 };
        assert(ax <= 0x100_0000_0000_0000 && ay <= 0x100_0000_0000_0000) by (nonlinear_arith)
            requires
                -(i * HEADING_LIMIT) <= dx <= i * HEADING_LIMIT,
                -(i * HEADING_LIMIT) <= dy <= i * HEADING_LIMIT,
                i <= MAX_BIRDS,
                ax == (if dx >= 0 { dx as int } else { -dx }),
                ay == (if dy >= 0 { dy as int } else { -dy }),
        ;
        assert(ax * ax <= 0x1_0000_0000_0000_0000_0000_0000_0000 && ay * ay <= 0x1_0000_0000_0000_0000_0000_0000_0000) by (nonlinear_arith)
            requires
                ax <= 0x100_0000_0000_0000,
                ay <= 0x100_0000_0000_0000,
        ;
        let s: u128 = ax * ax + ay * ay;
        proof {
            assert(dx * dx + dy * dy == s && dx * dx == ax * ax && dy * dy == ay * ay) by (nonlinear_arith)
                requires
                    ax == (if dx >= 0 { dx as int } else { -dx }),
                    ay == (if dy >= 0 { dy as int } else { -dy }),
                    s == ax * ax + ay * ay,
            ;
            assert(s > 0) by (nonlinear_arith)
                requires
                    s == ax * ax + ay * ay,
                    ax > 0 || ay > 0,
            ;
        }
        let ux = unit_component(dx, s);
        let uy = unit_component(dy, s);
        self.v = [ux + noise[0] as i64, uy + noise[1] as i64];
        Ok(())
    }

    /// Moves one step of `v0` along the heading and wraps back onto the torus.
    pub fn update_r(&mut self)
        requires
            old(self).wf(),
        ensures
            final(self).r == [
                advance_spec(old(self).r[0], old(self).v[0], old(self).v0) as u32,
                advance_spec(old(self).r[1], old(self).v[1], old(self).v0) as u32,
            ],
            final(self).v == old(self).v,
            final(self).v0 == old(self).v0,
    {
        let x = advance(self.r[0], self.v[0], self.v0);
        let y = advance(self.r[1], self.v[1], self.v0);
        self.r = [x, y];
    }

    /// Squared distance to `other`, each axis measured to the nearest periodic image.
    pub fn dist2(&self, other: &Bird) -> (d: u64)
        ensures
            d == dist2_spec(self.r, other.r),
    {
        let gx = gap(self.r[0], other.r[0]);
        let gy = gap(self.r[1], other.r[1]);
        assert(gx * gx <= 0x4000_0000_0000_0000 && gy * gy <= 0x4000_0000_0000_0000) by (nonlinear_arith)
            requires
                gx <= 0x8000_0000,
                gy <= 0x8000_0000,
        ;
        gx * gx + gy * gy
    }
}

/// `a * ONE² / s` rounded down, by long division: `a * ONE²` may not fit in 128 bits.
fn scaled_ratio(a: u128, s: u128) -> (q: u128)
    requires
        0 < s <= 0x2_0000_0000_0000_0000_0000_0000_0000u128,
        a <= s,
    ensures
        q == (a * (ONE * ONE)) / (s as int),
        q <= ONE * ONE,
{
    let mut q: u128 = a / s;
    let mut r: u128 = a % s;
    let ghost mut scale: nat = 1;
    proof {
        lemma_fundamental_div_mod(a as int, s as int);
        assert(q <= 1) by (nonlinear_arith)
            requires
                a <= s,
                s > 0,
                q == a / s,
        ;
        assert(q * s + r == a * scale) by (nonlinear_arith)
            requires
                a == s * q + r,
                scale == 1,
        ;
        lemma2_to64();
        vstd::arithmetic::power2::lemma2_to64_rest();
    }
    let mut i: u32 = 0;
    while i < 40
        invariant
            i <= 40,
            scale == pow2(i as nat),
            0 < s <= 0x2_0000_0000_0000_0000_0000_0000_0000u128,
            a <= s,
            r < s,
            q * s + r == a * scale,
            q <= scale,
            scale <= 0x100_0000_0000,
            pow2(40) == 0x100_0000_0000,
        decreases 40 - i,
    {
        proof {
            lemma_pow2_unfold((i + 1) as nat);
            if i + 1 < 40 {
                lemma_pow2_strictly_increases((i + 1) as nat, 40);
            }
        }
        let ghost q0 = q;
        let ghost r0 = r;
        let r2: u128 = 2 * r;
        if r2 >= s {
            q = 2 * q + 1;
            r = r2 - s;
        } else {
            q = 2 * q;
            r = r2;
        }
        proof {
            assert(q * s + r == a * (2 * scale)) by (nonlinear_arith)
                requires
                    q0 * s + r0 == a * scale,
                    (q == 2 * q0 + 1 && r == 2 * r0 - s) || (q == 2 * q0 && r == 2 * r0),
            ;
            assert(q <= 2 * scale) by (nonlinear_arith)
                requires
                    q * s + r == a * (2 * scale),
                    a <= s,
                    s > 0,
                    r >= 0,
                    scale >= 0,
            ;
            scale = 2 * scale;
        }
        i = i + 1;
    }
    proof {
        let big = a * (ONE * ONE);
        assert(scale == ONE * ONE);
        lemma_fundamental_div_mod_converse(big, s as int, q as int, r as int);
    }
    q
}

/// Component `c` of a nonzero vector of squared length `s`, scaled so that
/// the vector has length [`ONE`].
pub(crate) fn unit_component(c: i128, s: u128) -> (u: i64)
    requires
        0 < s <= 0x2_0000_0000_0000_0000_0000_0000_0000u128,
        c * c <= s,
    ensures
        u == unit_of(c as int, s as int),
        -ONE <= u <= ONE,
{
    assert(-0x2_0000_0000_0000_0000 <= c <= 0x2_0000_0000_0000_0000) by (nonlinear_arith)
        requires
            c * c <= s,
            s <= 0x2_0000_0000_0000_0000_0000_0000_0000u128,
    ;
    let mag: u128 = if c >= 0 { c as u128 } else { (-c) as u128 };
    assert(mag * mag == c * c) by (nonlinear_arith)
        requires
            mag == (if c >= 0 { c as int } else { -c }),
    ;
    let q = scaled_ratio(mag * mag, s);
    let m = isqrt(q);
    proof {
        lemma_root_exists(q as nat);
        assert(m <= ONE) by (nonlinear_arith)
            requires
                m * m <= q,
                q <= ONE * ONE,
                ONE == 0x10_0000,
        ;
    }
    if c >= 0 {
        m as i64
    } else {
        -(m as i64)
    }
}

/// The scaled component `u` is the largest whose square, against `s`, stays
/// within `c² · ONE²`.
pub proof fn lemma_unit_bounds(c: int, s: int)
    requires
        s > 0,
        c * c <= s,
    ensures
        ({
            let u = unit_of(c, s);
            let m = if u >= 0 { u } else { -u };
            &&& u * u * s <= c * c * (ONE * ONE)
            &&& c * c * (ONE * ONE) < (m + 1) * (m + 1) * s
            &&& m <= ONE
            &&& c >= 0 ==> u >= 0
            &&& c < 0 ==> u <= 0
        }),
{
    let big = c * c * (ONE * ONE);
    let t = big / s;
    assert(big >= 0) by (nonlinear_arith)
        requires
            big == c * c * (ONE * ONE),
    ;
    lemma_fundamental_div_mod(big, s);
    let rem = big % s;
    assert(0 <= rem < s) by {
        vstd::arithmetic::div_mod::lemma_mod_bound(big, s);
    }
    assert(t >= 0) by (nonlinear_arith)
        requires
            big == s * t + rem,
            big >= 0,
            rem < s,
            s > 0,
    ;
    lemma_root_exists(t as nat);
    let m = root(t as nat);
    assert(m * m * s <= big) by (nonlinear_arith)
        requires
            m * m <= t,
            big == s * t + rem,
            rem >= 0,
            s > 0,
    ;
    assert(big < (m + 1) * (m + 1) * s) by (nonlinear_arith)
        requires
            t < (m + 1) * (m + 1),
            big == s * t + rem,
            rem < s,
            s > 0,
    ;
    assert(t <= ONE * ONE) by (nonlinear_arith)
        requires
            c * c <= s,
            big == c * c * (ONE * ONE),
            big == s * t + rem,
            rem >= 0,
            s > 0,
    ;
    assert(m <= ONE) by (nonlinear_arith)
        requires
            m * m <= t,
            t <= ONE * ONE,
            ONE > 0,
    ;
    let u = unit_of(c, s);
    assert(u * u == m * m) by (nonlinear_arith)
        requires
            u == m || u == -m,
    ;
    assert(u * u * s == m * m * s);
}

/// A nonzero vector scaled to unit length has length [`ONE`] up to the
/// rounding of its components: its squared length lies in
/// `(ONE² - 4·ONE - 2, ONE²]`.
pub proof fn lemma_unit_length(x: int, y: int)
    requires
        x != 0 || y != 0,
    ensures
        unit_length([unit_part(x, x, y) as i64, unit_part(y, x, y) as i64]),
{
    let s = x * x + y * y;
    assert(s > 0 && x * x <= s && y * y <= s) by (nonlinear_arith)
        requires
            s == x * x + y * y,
            x != 0 || y != 0,
    ;
    lemma_unit_bounds(x, s);
    lemma_unit_bounds(y, s);
    let ux = unit_of(x, s);
    let uy = unit_of(y, s);
    let mx = if ux >= 0 { ux } else { -ux };
    let my = if uy >= 0 { uy } else { -uy };
    let o = ONE as int;
    assert(ux * ux + uy * uy <= o * o) by (nonlinear_arith)
        requires
            ux * ux * s <= x * x * (o * o),
            uy * uy * s <= y * y * (o * o),
            s == x * x + y * y,
            s > 0,
    ;
    assert(o * o < (mx + 1) * (mx + 1) + (my + 1) * (my + 1)) by (nonlinear_arith)
        requires
            x * x * (o * o) < (mx + 1) * (mx + 1) * s,
            y * y * (o * o) < (my + 1) * (my + 1) * s,
            s == x * x + y * y,
            s > 0,
    ;
    assert(mx * mx == ux * ux && my * my == uy * uy) by (nonlinear_arith)
        requires
            mx == (if ux >= 0 { ux } else { -ux }),
            my == (if uy >= 0 { uy } else { -uy }),
    ;
    assert(o * o - 4 * o - 2 < ux * ux + uy * uy) by (nonlinear_arith)
        requires
            o * o < (mx + 1) * (mx + 1) + (my + 1) * (my + 1),
            mx * mx == ux * ux,
            my * my == uy * uy,
            0 <= mx <= o,
            0 <= my <= o,
    ;
    assert(-o <= ux <= o && -o <= uy <= o);
}

/// Distance along one axis to the nearest periodic image.
fn gap(a: u32, b: u32) -> (g: u64)
    ensures
        g == axis_gap(a, b),
        g <= 0x8000_0000,
{
    let d: u64 = if a >= b { (a - b) as u64 } else { (b - a) as u64 };
    if d <= TORUS - d {
        d
    } else {
        TORUS - d
    }
}

/// The coordinate reached from `p` after one step along heading component `h`.
fn advance(p: u32, h: i64, v0: u32) -> (q: u32)
    requires
        -HEADING_LIMIT <= h <= HEADING_LIMIT,
    ensures
        q == advance_spec(p, h, v0),
{
    let mag: u128 = if h >= 0 { h as u128 } else { (-h) as u128 };
    assert(mag * (v0 as u128) <= 0x1_0000_0000_0000_0000) by (nonlinear_arith)
        requires
            mag <= 0x1_0000_0000,
            v0 <= 0xffff_ffff,
    ;
    let d: u128 = mag * (v0 as u128) / (ONE as u128);
    let red: u64 = (d % (TORUS as u128)) as u64;
    let shift: u64 = if h >= 0 { red } else { (TORUS - red) % TORUS };
    let q: u64 = (p as u64 + shift) % TORUS;
    proof {
        let t = TORUS as int;
        let di = d as int;
        assert(di == t * (di / t) + red) by {
            vstd::arithmetic::div_mod::lemma_fundamental_div_mod(di, t);
        }
        if h >= 0 {
            assert(trunc_ratio(h as int, v0 as nat, ONE as nat) == di);
            vstd::arithmetic::div_mod::lemma_mod_multiples_vanish(di / t, p + red, t);
            assert(p + di == t * (di / t) + (p + red));
        } else {
            assert(trunc_ratio(h as int, v0 as nat, ONE as nat) == -di);
            if red == 0 {
                assert(shift == 0);
                vstd::arithmetic::div_mod::lemma_mod_multiples_vanish(-(di / t), p as int, t);
                assert(p - di == t * (-(di / t)) + p);
            } else {
                assert(shift == t - red);
                vstd::arithmetic::div_mod::lemma_mod_multiples_vanish(-(di / t) - 1, p + t - red, t);
                assert(p - di == t * (-(di / t) - 1) + (p + t - red));
            }
        }
    }
    q as u32
}

} // verus!
