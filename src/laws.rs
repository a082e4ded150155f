//! Properties of the model that relate several of its parts.
use vstd::prelude::*;

use crate::bird::{
    advance_spec, aligned_heading, axis_gap, dist2_spec, lemma_unit_length, sum_x, sum_y, unit_length, Bird,
};
use crate::cell_list::{disjoint_cells, in_some_cell};
use crate::fixed::{lemma_root_exists, root, TORUS};
use crate::grid::{
    cell_coord, cell_of, last_ring, lemma_axis_reach, lemma_cell_on_grid, lemma_cell_split, lemma_offset_abs_bound,
};
use crate::model::Vicsek;
use crate::order::{indices, lemma_filter_indices};
use crate::proximity::Proximity;
use crate::selection::{
    close, lemma_all_by_ring, moved, nearest, pick, ring_between, step_spec, turned, within,
};

verus! {

/// Periodic distance is symmetric: `dist2(a, b) == dist2(b, a)`.
pub proof fn lemma_dist2_symmetric(a: [u32; 2], b: [u32; 2])
    ensures
        dist2_spec(a, b) == dist2_spec(b, a),
{
}

/// A step always lands on the torus: each coordinate stays in `[0, 1)`,
/// that is in `0..TORUS` position units, whatever the heading and speed.
pub proof fn lemma_advance_on_torus(p: u32, h: i64, v0: u32)
    ensures
        0 <= advance_spec(p, h, v0) < TORUS,
{
}

/// In a well-formed flock (as `new`, `sweep` and `set_num_birds` leave it)
/// the grid, of side `root(n)`, holds every bird index exactly once, in the
/// cell of that bird's position: each index below the flock size is in its
/// own cell, no other index is in any cell, and no index is in two cells.
pub proof fn lemma_index_complete(v: &Vicsek)
    requires
        v.wf(),
    ensures
        v.grid_side() == root(v@.len()),
        forall|j: usize| j < v@.len() ==> #[trigger] v.grid()[cell_of(v@[j as int].r, v.grid_side()) as int].contains(j),
        forall|j: usize| #[trigger] in_some_cell(v.grid(), j) <==> j < v@.len(),
        disjoint_cells(v.grid()),
{
    v.lemma_grid_holds_all();
    v.lemma_wf_facts();
    assert forall|j: usize| j < v@.len() implies #[trigger] v.grid()[cell_of(v@[j as int].r, v.grid_side()) as int].contains(j) by {
        lemma_cell_on_grid(v@[j as int].r, v.grid_side());
    }
}

/// Aligning without noise gives a heading of unit length, up to the rounding
/// of its components, whenever the summed headings do not cancel.
pub proof fn lemma_aligned_unit(bs: Seq<Bird>)
    requires
        sum_x(bs) != 0 || sum_y(bs) != 0,
    ensures
        aligned_heading(bs, [0, 0]) matches Some(h) && unit_length(h),
{
    lemma_unit_length(sum_x(bs), sum_y(bs));
}

/// Under `Neighbors(k)` a bird aligns with exactly `k` distinct birds, or with
/// the whole flock where it has fewer than `k` birds.
pub proof fn lemma_neighbor_count(birds: Seq<Bird>, i: int, k: nat)
    requires
        0 <= i < birds.len() <= usize::MAX + 1,
    ensures
        nearest(birds, i, k).len() == (if k < birds.len() { k } else { birds.len() }),
        nearest(birds, i, k).no_duplicates(),
{
    lemma_all_by_ring(birds, i);
}

/// Under `Radius(r)` a bird aligns with every bird closer than `r` (itself
/// included) and with no other, each once.
pub proof fn lemma_radius_members(birds: Seq<Bird>, i: int, r: u32)
    requires
        0 <= i < birds.len() <= usize::MAX + 1,
    ensures
        forall|j: usize| #[trigger] within(birds, i, r).contains(j) <==> (j < birds.len() && dist2_spec(birds[i].r, birds[j as int].r) < r * r),
        within(birds, i, r).no_duplicates(),
{
    lemma_filter_indices(birds.len(), |j: usize| close(birds, i, r, j as int));
}

/// Where every pair of birds is closer than `r`, `Radius(r)` makes every bird
/// align with the whole flock: each takes the mean heading of all birds plus
/// its own noise, then moves one step along it.
pub proof fn lemma_radius_covering_flock(birds: Seq<Bird>, r: u32, noise: Seq<[i32; 2]>)
    requires
        birds.len() <= usize::MAX + 1,
        noise.len() == birds.len(),
        forall|i: int, j: int| 0 <= i < birds.len() && 0 <= j < birds.len() ==> #[trigger] close(birds, i, r, j),
    ensures
        forall|i: int| 0 <= i < birds.len() ==> #[trigger] step_spec(birds, Proximity::Radius(r), noise)[i]
            == moved(turned(birds[i], birds, noise[i])),
{
    assert forall|i: int| 0 <= i < birds.len() implies #[trigger] step_spec(birds, Proximity::Radius(r), noise)[i]
        == moved(turned(birds[i], birds, noise[i])) by {
        let pred = |j: usize| close(birds, i, r, j as int);
        lemma_filter_indices(birds.len(), pred);
        let w = within(birds, i, r);
        let ids = indices(birds.len());
        assert forall|j: usize| w.to_set().contains(j) <==> ids.to_set().contains(j) by {
            assert(w.contains(j) <==> (j < birds.len() && pred(j)));
            if j < birds.len() {
                assert(ids[j as int] == j);
                assert(close(birds, i, r, j as int));
            }
        }
        assert(w.to_set() =~= ids.to_set());
        crate::order::lemma_increasing_unique(w, ids);
        assert(pick(birds, ids) =~= birds);
    }
}

/// A bird closer than `r` to bird `i` lies within `ceil(r * l / TORUS) + 1` rings, and
/// every bird lies within the last ring.
pub proof fn lemma_close_in_reach(birds: Seq<Bird>, i: int, j: int, r: u32)
    requires
        birds.len() > 0,
        0 <= i < birds.len(),
        0 <= j < birds.len(),
    ensures
        ring_between(birds, i, j) <= last_ring(root(birds.len())),
        close(birds, i, r, j) ==> ring_between(birds, i, j)
            <= ((r as nat) * root(birds.len()) + TORUS - 1) / (TORUS as int) + 1,
{
    let l = root(birds.len());
    lemma_root_exists(birds.len());
    assert(l > 0) by (nonlinear_arith)
        requires
            birds.len() < (l + 1) * (l + 1),
            birds.len() > 0,
    ;
    let p = birds[i].r;
    let q = birds[j].r;
    let li = l as int;
    lemma_cell_on_grid(p, l);
    lemma_cell_on_grid(q, l);
    let xp = cell_coord(p[0], l) as int;
    let yp = cell_coord(p[1], l) as int;
    let xq = cell_coord(q[0], l) as int;
    let yq = cell_coord(q[1], l) as int;
    assert(xp < l && yp < l && xq < l && yq < l) by {
        assert(xp < l) by (nonlinear_arith)
            requires
                xp == ((p[0] as nat) * l) / (TORUS as nat),
                p[0] < TORUS,
                l > 0,
        ;
        assert(yp < l) by (nonlinear_arith)
            requires
                yp == ((p[1] as nat) * l) / (TORUS as nat),
                p[1] < TORUS,
                l > 0,
        ;
        assert(xq < l) by (nonlinear_arith)
            requires
                xq == ((q[0] as nat) * l) / (TORUS as nat),
                q[0] < TORUS,
                l > 0,
        ;
        assert(yq < l) by (nonlinear_arith)
            requires
                yq == ((q[1] as nat) * l) / (TORUS as nat),
                q[1] < TORUS,
                l > 0,
        ;
    }
    lemma_cell_split(l, xp, yp);
    lemma_cell_split(l, xq, yq);
    lemma_offset_abs_bound(l, xp, xq);
    lemma_offset_abs_bound(l, yp, yq);
    if close(birds, i, r, j) {
        let gx = axis_gap(p[0], q[0]);
        let gy = axis_gap(p[1], q[1]);
        assert(gx < r && gy < r) by (nonlinear_arith)
            requires
                gx * gx + gy * gy < r * r,
                gx >= 0,
                gy >= 0,
                r >= 0,
        ;
        lemma_axis_reach(l, p[0], q[0], r as nat);
        lemma_axis_reach(l, p[1], q[1], r as nat);
    }
}

} // verus!
