//! Arithmetic of the cell grid: which cell a position falls in, and how far
//! apart two cells are on the periodic grid.
use vstd::arithmetic::div_mod::{
    lemma_div_is_ordered, lemma_fundamental_div_mod, lemma_fundamental_div_mod_converse,
    lemma_mod_bound, lemma_mod_multiples_vanish, lemma_small_mod,
};
use vstd::prelude::*;

use crate::bird::axis_gap;
use crate::fixed::TORUS;

verus! {

/// Grid column (or row) of coordinate `p` on a grid of side `l`.
pub open spec fn cell_coord(p: u32, l: nat) -> nat {
    ((p as nat) * l) / (TORUS as nat)
}

/// Index of the cell that holds position `r`: column-major, `x * l + y`.
pub open spec fn cell_of(r: [u32; 2], l: nat) -> nat {
    cell_coord(r[0], l) * l + cell_coord(r[1], l)
}

/// The signed step from `a` to `b` along one periodic axis of length `l`,
/// taken the short way round: it lies in `[-(l - 1) / 2, l / 2]`.
pub open spec fn offset(l: nat, a: int, b: int) -> int {
    let d = (b - a) % (l as int);
    if d <= l / 2 {
        d
    } else {
        d - l
    }
}

pub open spec fn abs(x: int) -> nat {
    if x >= 0 {
        x as nat
    } else {
        (-x) as nat
    }
}

/// The ring of cell `c` around cell `c0`: their periodic Chebyshev distance.
pub open spec fn ring_of(l: nat, c0: int, c: int) -> nat {
    let dx = abs(offset(l, c0 / (l as int), c / (l as int)));
    let dy = abs(offset(l, c0 % (l as int), c % (l as int)));
    if dx >= dy {
        dx
    } else {
        dy
    }
}

/// The largest ring on a grid of side `l`: every cell lies within it.
pub open spec fn last_ring(l: nat) -> nat {
    l / 2
}

/// Stepping `d` from `a` and taking the short way back gives `d` again.
pub proof fn lemma_offset_of_shift(l: nat, a: int, d: int)
    requires
        0 <= a < l,
        -((l - 1) / 2) <= d <= l / 2,
    ensures
        offset(l, a, (a + d) % (l as int)) == d,
{
    let li = l as int;
    let b = (a + d) % li;
    lemma_fundamental_div_mod(a + d, li);
    let q = (a + d) / li;
    assert(b - a == li * (-q) + d) by (nonlinear_arith)
        requires
            a + d == li * q + b,
    ;
    lemma_mod_multiples_vanish(-q, d, li);
    if d >= 0 {
        lemma_small_mod(d as nat, l);
    } else {
        lemma_mod_multiples_vanish(1, d, li);
        lemma_small_mod((li + d) as nat, l);
        assert((li + d) % li == d % li);
    }
}

/// The short-way offset from `a` to `b` is in range and leads from `a` to `b`.
pub proof fn lemma_offset_range(l: nat, a: int, b: int)
    requires
        0 <= a < l,
        0 <= b < l,
    ensures
        -((l - 1) / 2) <= offset(l, a, b) <= l / 2,
        (a + offset(l, a, b)) % (l as int) == b,
{
    let li = l as int;
    lemma_mod_bound(b - a, li);
    let d = (b - a) % li;
    lemma_fundamental_div_mod(b - a, li);
    let q = (b - a) / li;
    let o = offset(l, a, b);
    if d <= l / 2 {
        assert(a + o == li * (-q) + b) by (nonlinear_arith)
            requires
                b - a == li * q + d,
                o == d,
        ;
    } else {
        assert(a + o == li * (-q - 1) + b) by (nonlinear_arith)
            requires
                b - a == li * q + d,
                o == d - li,
        ;
    }
    assert(a + o == li * ((a + o - b) / li) + b) by {
        if d <= l / 2 {
            lemma_fundamental_div_mod_converse(a + o - b, li, -q, 0);
        } else {
            lemma_fundamental_div_mod_converse(a + o - b, li, -q - 1, 0);
        }
    }
    lemma_mod_multiples_vanish((a + o - b) / li, b, li);
    lemma_small_mod(b as nat, l);
}

/// Column and row of a cell index, and back.
pub proof fn lemma_cell_split(l: nat, x: int, y: int)
    requires
        0 <= x < l,
        0 <= y < l,
    ensures
        (x * l + y) / (l as int) == x,
        (x * l + y) % (l as int) == y,
        0 <= x * l + y < l * l,
{
    lemma_fundamental_div_mod_converse(x * l + y, l as int, x, y);
    assert(x * l + y < l * l) by (nonlinear_arith)
        requires
            0 <= x < l,
            0 <= y < l,
    ;
    assert(0 <= x * l) by (nonlinear_arith)
        requires
            0 <= x,
    ;
}

pub proof fn lemma_cell_join(l: nat, c: int)
    requires
        0 <= c < l * l,
    ensures
        c == (c / (l as int)) * l + c % (l as int),
        0 <= c / (l as int) < l,
        0 <= c % (l as int) < l,
{
    assert(l > 0) by (nonlinear_arith)
        requires
            0 <= c < l * l,
    ;
    lemma_fundamental_div_mod(c, l as int);
    lemma_mod_bound(c, l as int);
    let x = c / (l as int);
    let y = c % (l as int);
    assert(c == x * l + y) by (nonlinear_arith)
        requires
            c == (l as int) * x + y,
    ;
    assert(0 <= x < l) by (nonlinear_arith)
        requires
            c == x * l + y,
            0 <= y < l,
            0 <= c < l * l,
    ;
}

/// The short-way step between two columns is no longer than either way round.
pub proof fn lemma_offset_abs_bound(l: nat, a: int, b: int)
    requires
        0 <= a < l,
        0 <= b < l,
    ensures
        abs(offset(l, a, b)) <= abs(b - a),
        abs(offset(l, a, b)) <= l - abs(b - a),
        abs(offset(l, a, b)) <= l / 2,
{
    let li = l as int;
    lemma_offset_range(l, a, b);
    if b >= a {
        lemma_small_mod((b - a) as nat, l);
    } else {
        lemma_mod_multiples_vanish(1, b - a, li);
        lemma_small_mod((li + b - a) as nat, l);
    }
}

/// Splitting a sum before dividing loses at most one.
proof fn lemma_div_sum(a: int, b: int, t: int)
    requires
        a >= 0,
        b >= 0,
        t > 0,
    ensures
        a / t + b / t <= (a + b) / t <= a / t + b / t + 1,
{
    lemma_fundamental_div_mod(a, t);
    lemma_fundamental_div_mod(b, t);
    lemma_mod_bound(a, t);
    lemma_mod_bound(b, t);
    let qa = a / t;
    let qb = b / t;
    let ra = a % t;
    let rb = b % t;
    assert(a + b == (qa + qb) * t + (ra + rb)) by (nonlinear_arith)
        requires
            a == t * qa + ra,
            b == t * qb + rb,
    ;
    if ra + rb < t {
        lemma_fundamental_div_mod_converse(a + b, t, qa + qb, ra + rb);
    } else {
        assert(a + b == (qa + qb + 1) * t + (ra + rb - t)) by (nonlinear_arith)
            requires
                a + b == (qa + qb) * t + (ra + rb),
        ;
        lemma_fundamental_div_mod_converse(a + b, t, qa + qb + 1, ra + rb - t);
    }
}

/// The columns left of `x * l / t`, counted the other way round.
proof fn lemma_div_complement(x: int, l: int, t: int)
    requires
        0 <= x <= t,
        l >= 0,
        t > 0,
    ensures
        l - (x * l) / t <= ((t - x) * l) / t + 1,
{
    lemma_fundamental_div_mod(x * l, t);
    lemma_mod_bound(x * l, t);
    let a = (x * l) / t;
    let b = (x * l) % t;
    assert((t - x) * l == t * (l - a - 1) + (t - b)) by (nonlinear_arith)
        requires
            x * l == t * a + b,
    ;
    assert(t * (l - a - 1) <= (t - x) * l);
    assert((t * (l - a - 1)) / t == l - a - 1) by {
        lemma_fundamental_div_mod_converse(t * (l - a - 1), t, l - a - 1, 0);
    }
    lemma_div_is_ordered(t * (l - a - 1), (t - x) * l, t);
}

/// Two coordinates closer than `r` (the short way round) fall in columns at
/// most `ceil(r * l / TORUS) + 1` apart on the periodic grid.
pub proof fn lemma_axis_reach(l: nat, p: u32, q: u32, r: nat)
    requires
        l > 0,
        axis_gap(p, q) < r,
    ensures
        abs(offset(l, cell_coord(p, l) as int, cell_coord(q, l) as int)) <= (r * l + TORUS - 1) / (TORUS as int) + 1,
{
    let t = TORUS as int;
    let li = l as int;
    let hi: int = if p >= q { p as int } else { q as int };
    let lo: int = if p >= q { q as int } else { p as int };
    let ch = (hi * li) / t;
    let cl = (lo * li) / t;
    assert(lo * li <= hi * li) by (nonlinear_arith)
        requires
            lo <= hi,
            li > 0,
    ;
    lemma_div_is_ordered(lo * li, hi * li, t);
    assert(0 <= lo * li) by (nonlinear_arith)
        requires
            0 <= lo,
            li > 0,
    ;
    let cp = cell_coord(p, l) as int;
    let cq = cell_coord(q, l) as int;
    assert(cp < l && cq < l && cp >= 0 && cq >= 0) by {
        assert(cp < l) by (nonlinear_arith)
            requires
                cp == ((p as nat) * l) / (TORUS as nat),
                p < TORUS,
                l > 0,
        ;
        assert(cq < l) by (nonlinear_arith)
            requires
                cq == ((q as nat) * l) / (TORUS as nat),
                q < TORUS,
                l > 0,
        ;
    }
    lemma_offset_abs_bound(l, cp, cq);
    assert(abs(cq - cp) == ch - cl);
    let diff = hi - lo;
    let g = axis_gap(p, q) as int;
    let bound = (r * li + t - 1) / t;
    assert(0 <= g * li <= r * li + t - 1) by (nonlinear_arith)
        requires
            0 <= g < r,
            li > 0,
            t > 0,
    ;
    lemma_div_is_ordered(g * li, r * li + t - 1, t);
    if g == diff {
        assert(hi * li == lo * li + diff * li) by (nonlinear_arith)
            requires
                diff == hi - lo,
        ;
        assert(0 <= diff * li) by (nonlinear_arith)
            requires
                0 <= diff,
                li > 0,
        ;
        lemma_div_sum(lo * li, diff * li, t);
    } else {
        assert(g == t - diff);
        lemma_div_complement(hi, li, t);
        assert(0 <= (t - hi) * li) by (nonlinear_arith)
            requires
                hi <= t,
                li > 0,
        ;
        assert((t - hi) * li + lo * li == g * li) by (nonlinear_arith)
            requires
                g == t - (hi - lo),
        ;
        lemma_div_sum((t - hi) * li, lo * li, t);
    }
}

/// The cell of a position lies on the grid.
pub proof fn lemma_cell_on_grid(r: [u32; 2], l: nat)
    requires
        l > 0,
    ensures
        cell_of(r, l) < l * l,
{
    let x = cell_coord(r[0], l);
    let y = cell_coord(r[1], l);
    assert(x < l) by (nonlinear_arith)
        requires
            x == ((r[0] as nat) * l) / (TORUS as nat),
            r[0] < TORUS,
            l > 0,
    ;
    assert(y < l) by (nonlinear_arith)
        requires
            y == ((r[1] as nat) * l) / (TORUS as nat),
            r[1] < TORUS,
            l > 0,
    ;
    lemma_cell_split(l, x as int, y as int);
}

} // verus!
