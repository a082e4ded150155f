//! Which birds each bird aligns with, and what one synchronous step does.
use vstd::prelude::*;

use crate::bird::{advance_spec, aligned_heading, dist2_spec, Bird};
use crate::fixed::root;
use crate::grid::{cell_of, last_ring, ring_of};
use crate::order::{indices, lemma_filter_indices};
use crate::proximity::Proximity;

verus! {

/// The grid ring of bird `j` around bird `i`, on the grid of side
/// `root(n)` that a flock of `n` birds uses.
pub open spec fn ring_between(birds: Seq<Bird>, i: int, j: int) -> nat {
    let l = root(birds.len());
    ring_of(l, cell_of(birds[i].r, l) as int, cell_of(birds[j].r, l) as int)
}

/// Bird `j` is another bird than `i`, in ring `m` around it.
pub open spec fn other_in_ring(birds: Seq<Bird>, i: int, m: nat, j: usize) -> bool {
    j != i && ring_between(birds, i, j as int) == m
}

/// The birds other than `i` in ring `m` around bird `i`, in increasing index order.
pub open spec fn ring_seq(birds: Seq<Bird>, i: int, m: nat) -> Seq<usize> {
    indices(birds.len()).filter(|j: usize| other_in_ring(birds, i, m, j))
}

/// Bird `i` itself, then the other birds of rings `0` to `m` around it, ring after ring.
pub open spec fn rings_upto(birds: Seq<Bird>, i: int, m: nat) -> Seq<usize>
    decreases m,
{
    if m == 0 {
        seq![i as usize] + ring_seq(birds, i, 0)
    } else {
        rings_upto(birds, i, (m - 1) as nat) + ring_seq(birds, i, m)
    }
}

/// Every bird: bird `i` first, then the others by ring around bird `i`, then by index.
pub open spec fn all_by_ring(birds: Seq<Bird>, i: int) -> Seq<usize> {
    rings_upto(birds, i, last_ring(root(birds.len())))
}

/// The `k` birds nearest to bird `i`: itself first, then the others by
/// ring, lower index first within a ring; all birds where there are no more
/// than `k`.
pub open spec fn nearest(birds: Seq<Bird>, i: int, k: nat) -> Seq<usize> {
    let all = all_by_ring(birds, i);
    if k < all.len() {
        all.take(k as int)
    } else {
        all
    }
}

/// Bird `j` is closer than `r` to bird `i`.
pub open spec fn close(birds: Seq<Bird>, i: int, r: u32, j: int) -> bool {
    dist2_spec(birds[i].r, birds[j].r) < r * r
}

/// The birds closer than `r` to bird `i` (itself included), in increasing index order.
pub open spec fn within(birds: Seq<Bird>, i: int, r: u32) -> Seq<usize> {
    indices(birds.len()).filter(|j: usize| close(birds, i, r, j as int))
}

/// The birds that bird `i` aligns with under rule `p`.
pub open spec fn candidates(birds: Seq<Bird>, p: Proximity, i: int) -> Seq<usize> {
    match p {
        Proximity::Neighbors(k) => nearest(birds, i, k as nat),
        Proximity::Radius(r) => within(birds, i, r),
    }
}

/// The birds at the given indices.
pub open spec fn pick(birds: Seq<Bird>, idx: Seq<usize>) -> Seq<Bird> {
    idx.map_values(|j: usize| birds[j as int])
}

/// Bird `b` after aligning with `bs` and taking `noise`; unchanged where
/// the headings of `bs` cancel.
pub open spec fn turned(b: Bird, bs: Seq<Bird>, noise: [i32; 2]) -> Bird {
    match aligned_heading(bs, noise) {
        Some(h) => Bird { r: b.r, v: h, v0: b.v0 },
        None => b,
    }
}

/// Bird `b` after one step along its heading.
pub open spec fn moved(b: Bird) -> Bird {
    Bird {
        r: [advance_spec(b.r[0], b.v[0], b.v0) as u32, advance_spec(b.r[1], b.v[1], b.v0) as u32],
        v: b.v,
        v0: b.v0,
    }
}

/// One synchronous step: every bird aligns with the birds that rule `p`
/// picks from the flock as it was, takes its noise, and moves.
pub open spec fn step_spec(birds: Seq<Bird>, p: Proximity, noise: Seq<[i32; 2]>) -> Seq<Bird> {
    Seq::new(birds.len(), |i: int| moved(turned(birds[i], pick(birds, candidates(birds, p, i)), noise[i])))
}

/// One step for each entry of `noise`, in order.
pub open spec fn sweep_spec(birds: Seq<Bird>, p: Proximity, noise: Seq<Seq<[i32; 2]>>) -> Seq<Bird>
    decreases noise.len(),
{
    if noise.len() == 0 {
        birds
    } else {
        step_spec(sweep_spec(birds, p, noise.drop_last()), p, noise.last())
    }
}

/// Rings `0` to `m` come first among rings `0` to `big`.
pub proof fn lemma_rings_prefix(birds: Seq<Bird>, i: int, m: nat, big: nat)
    requires
        m <= big,
    ensures
        rings_upto(birds, i, m).len() <= rings_upto(birds, i, big).len(),
        rings_upto(birds, i, big).take(rings_upto(birds, i, m).len() as int) == rings_upto(birds, i, m),
    decreases big,
{
    if m < big {
        lemma_rings_prefix(birds, i, m, (big - 1) as nat);
        let a = rings_upto(birds, i, (big - 1) as nat);
        let b = ring_seq(birds, i, big);
        assert((a + b).take(rings_upto(birds, i, m).len() as int) =~= a.take(rings_upto(birds, i, m).len() as int));
    } else {
        assert(rings_upto(birds, i, big).take(rings_upto(birds, i, m).len() as int) =~= rings_upto(birds, i, m));
    }
}

/// Rings `0` to `m` hold each bird at most once: exactly those of ring at most `m`.
pub proof fn lemma_rings_upto(birds: Seq<Bird>, i: int, m: nat)
    requires
        0 <= i < birds.len() <= usize::MAX + 1,
    ensures
        rings_upto(birds, i, m).no_duplicates(),
        forall|j: usize| #[trigger] rings_upto(birds, i, m).contains(j) <==> (j < birds.len() && ring_between(birds, i, j as int) <= m),
    decreases m,
{
    let pred = |j: usize| other_in_ring(birds, i, m, j);
    lemma_filter_indices(birds.len(), pred);
    let r = ring_seq(birds, i, m);
    assert(r == indices(birds.len()).filter(pred));
    let a = if m == 0 { seq![i as usize] } else { rings_upto(birds, i, (m - 1) as nat) };
    lemma_ring_self(birds, i);
    if m == 0 {
        assert forall|x: usize| #[trigger] a.contains(x) <==> (x < birds.len() && ring_between(birds, i, x as int) <= 0 && x == i) by {
            if x == i {
                assert(a[0] == x);
            }
        }
    } else {
        lemma_rings_upto(birds, i, (m - 1) as nat);
    }
    assert(rings_upto(birds, i, m) == a + r);
    assert forall|x: int, y: int| 0 <= x < a.len() && 0 <= y < r.len() implies a[x] != r[y] by {
        assert(a.contains(a[x]));
        assert(r.contains(r[y]));
        assert(pred(r[y]));
    }
    vstd::seq_lib::lemma_no_dup_in_concat(a, r);
    assert forall|j: usize| #[trigger] rings_upto(birds, i, m).contains(j) <==> (j < birds.len() && ring_between(birds, i, j as int) <= m) by {
        let s2 = a + r;
        assert(r.contains(j) <==> (j < birds.len() && pred(j)));
        if s2.contains(j) {
            let w = choose|w: int| 0 <= w < s2.len() && s2[w] == j;
            if w < a.len() {
                assert(a[w] == j);
            } else {
                assert(r[w - a.len()] == j);
            }
        }
        if a.contains(j) {
            let w = choose|w: int| 0 <= w < a.len() && a[w] == j;
            assert(s2[w] == j);
        }
        if r.contains(j) {
            let w = choose|w: int| 0 <= w < r.len() && r[w] == j;
            assert(s2[a.len() + w] == j);
        }
        if j == i {
            if m == 0 {
                assert(a[0] == j);
            }
            assert(a.contains(j));
        }
    }
}

/// A bird is in ring 0 around itself.
pub proof fn lemma_ring_self(birds: Seq<Bird>, i: int)
    requires
        0 <= i < birds.len(),
    ensures
        ring_between(birds, i, i) == 0,
{
    let l = root(birds.len());
    crate::fixed::lemma_root_exists(birds.len());
    assert(l > 0) by (nonlinear_arith)
        requires
            birds.len() < (l + 1) * (l + 1),
            birds.len() > 0,
    ;
    vstd::arithmetic::div_mod::lemma_small_mod(0, l);
}

/// Ordering the flock by ring around bird `i` lists every bird once.
pub proof fn lemma_all_by_ring(birds: Seq<Bird>, i: int)
    requires
        0 <= i < birds.len() <= usize::MAX + 1,
    ensures
        all_by_ring(birds, i).len() == birds.len(),
        all_by_ring(birds, i).no_duplicates(),
        forall|j: usize| #[trigger] all_by_ring(birds, i).contains(j) <==> j < birds.len(),
{
    let l = root(birds.len());
    let all = all_by_ring(birds, i);
    lemma_rings_upto(birds, i, last_ring(l));
    assert forall|j: usize| #[trigger] all.contains(j) <==> j < birds.len() by {
        if j < birds.len() {
            lemma_ring_within_last(birds, i, j as int);
        }
    }
    let ids = indices(birds.len());
    assert forall|j: usize| ids.contains(j) <==> j < birds.len() by {
        if j < birds.len() {
            assert(ids[j as int] == j);
        }
    }
    assert forall|a: int, b: int| 0 <= a < ids.len() && 0 <= b < ids.len() && a != b implies ids[a] != ids[b] by {}
    assert(all.to_set() =~= ids.to_set());
    all.unique_seq_to_set();
    ids.unique_seq_to_set();
}

/// No bird lies beyond the last ring.
pub proof fn lemma_ring_within_last(birds: Seq<Bird>, i: int, j: int)
    requires
        0 <= i < birds.len(),
        0 <= j < birds.len(),
    ensures
        ring_between(birds, i, j) <= last_ring(root(birds.len())),
{
    let l = root(birds.len());
    crate::fixed::lemma_root_exists(birds.len());
    assert(l > 0) by (nonlinear_arith)
        requires
            birds.len() < (l + 1) * (l + 1),
            birds.len() > 0,
    ;
    let c0 = cell_of(birds[i].r, l) as int;
    let c = cell_of(birds[j].r, l) as int;
    crate::grid::lemma_cell_on_grid(birds[i].r, l);
    crate::grid::lemma_cell_on_grid(birds[j].r, l);
    crate::grid::lemma_cell_join(l, c0);
    crate::grid::lemma_cell_join(l, c);
    let li = l as int;
    crate::grid::lemma_offset_abs_bound(l, c0 / li, c / li);
    crate::grid::lemma_offset_abs_bound(l, c0 % li, c % li);
}

/// The birds a rule picks are distinct birds of the flock.
pub proof fn lemma_candidates_valid(birds: Seq<Bird>, p: Proximity, i: int)
    requires
        0 <= i < birds.len() <= usize::MAX + 1,
    ensures
        candidates(birds, p, i).len() <= birds.len(),
        forall|k: int| 0 <= k < candidates(birds, p, i).len() ==> (#[trigger] candidates(birds, p, i)[k]) < birds.len(),
{
    match p {
        Proximity::Neighbors(k) => {
            lemma_all_by_ring(birds, i);
            let all = all_by_ring(birds, i);
            assert forall|q: int| 0 <= q < candidates(birds, p, i).len() implies (#[trigger] candidates(birds, p, i)[q]) < birds.len() by {
                assert(all.contains(all[q]));
            }
        },
        Proximity::Radius(r) => {
            let pred = |j: usize| close(birds, i, r, j as int);
            lemma_filter_indices(birds.len(), pred);
            indices(birds.len()).lemma_filter_len(pred);
            let w = within(birds, i, r);
            assert forall|q: int| 0 <= q < w.len() implies (#[trigger] w[q]) < birds.len() by {
                assert(w.contains(w[q]));
            }
        },
    }
}

} // verus!
