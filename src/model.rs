//! The flock: birds, their spatial index, and the synchronous update.
use vstd::prelude::*;

use crate::bird::{lemma_unit_length, unit_component, unit_length, unit_part, Bird, MAX_BIRDS};
use crate::cell_list::{disjoint_cells, in_some_cell, ring_members, CellList};
use crate::fixed::{isqrt, lemma_root_exists, root, ONE, TORUS};
use crate::grid::{cell_of, last_ring, ring_of};
use crate::laws::lemma_close_in_reach;
use crate::order::{indices, lemma_filter_indices, lemma_increasing_unique, sort_unique, without};
use crate::proximity::{ConfigError, Proximity};
use crate::selection::{
    all_by_ring, candidates, close, lemma_candidates_valid, lemma_rings_prefix, moved, nearest,
    other_in_ring, pick, ring_between, ring_seq, rings_upto, step_spec, sweep_spec, turned, within,
};
use crate::random::{draw_u32, draw_u64, pcg_word, seeded, Stream};

verus! {

/// Speed of a new bird: a thousandth of the torus side per step.
pub const SPEED: u32 = 4_294_967;

/// Noise level of a new flock: a tenth of a unit heading.
pub const DEFAULT_ETA: u32 = 104_857;

/// How many points are drawn, at most, while looking for a random direction.
pub const HEADING_TRIES: usize = 32;

/// The cells of a grid of side `l` that bin the birds with index below `upto`.
pub open spec fn binned(birds: Seq<Bird>, l: nat, upto: nat) -> Seq<Set<usize>> {
    Seq::new(l * l, |c: int| Set::new(|j: usize| j < upto && cell_of(birds[j as int].r, l) == c))
}

/// Why a flock of `n` birds with proximity rule `p` cannot be built, if it cannot.
pub open spec fn config_error(n: nat, p: Proximity) -> Option<ConfigError> {
    if n == 0 {
        Some(ConfigError::NoBirds)
    } else if n > MAX_BIRDS {
        Some(ConfigError::TooManyBirds)
    } else {
        rule_error(p)
    }
}

/// Why proximity rule `p` is refused, if it is: it must pick at least one bird.
pub open spec fn rule_error(p: Proximity) -> Option<ConfigError> {
    match p {
        Proximity::Neighbors(k) => if k == 0 { Some(ConfigError::NoNeighbors) } else { None },
        Proximity::Radius(r) => if r == 0 { Some(ConfigError::ZeroRadius) } else { None },
    }
}

/// A flock on the unit torus.
///
/// `proximity` and `eta` may be changed between sweeps. `eta` is the standard
/// deviation, in heading units, of the noise that the caller draws through
/// [`Vicsek::draw_u64`] and hands to [`Vicsek::sweep`].
pub struct Vicsek {
    birds: Vec<Bird>,
    pub proximity: Proximity,
    pub eta: u32,
    stream: Stream,
    cell_list: CellList,
}

impl View for Vicsek {
    type V = Seq<Bird>;

    closed spec fn view(&self) -> Seq<Bird> {
        self.birds@
    }
}

/// Word `k` of the stream of `seed`, cut to 32 bits.
pub open spec fn word32(seed: u64, k: nat) -> u32 {
    pcg_word(seed, k) as u32
}

/// A drawn point is used for a direction where it lies in the ring between
/// radius `2^20` and radius `2^31` around the centre of the drawing square.
pub open spec fn accepted(x: int, y: int) -> bool {
    0x100_0000_0000 <= x * x + y * y < 0x4000_0000_0000_0000
}

/// The direction drawn from word `k` of the stream of `seed` on, at try `t`,
/// and the first word left unused. Each try draws a point from two words;
/// after [`HEADING_TRIES`] refused points the direction is `(ONE, 0)`.
pub open spec fn heading_from(seed: u64, k: nat, t: nat) -> ([i64; 2], nat)
    decreases HEADING_TRIES - t,
{
    if t >= HEADING_TRIES {
        ([ONE, 0], k)
    } else {
        let x = word32(seed, k) - 0x8000_0000;
        let y = word32(seed, k + 1) - 0x8000_0000;
        if accepted(x, y) {
            ([unit_part(x, x, y) as i64, unit_part(y, x, y) as i64], k + 2)
        } else {
            heading_from(seed, k + 2, t + 1)
        }
    }
}

/// The bird drawn from word `k` of the stream of `seed` on (its direction,
/// then its position), and the first word left unused.
pub open spec fn bird_from(seed: u64, k: nat) -> (Bird, nat) {
    let (v, k1) = heading_from(seed, k, 0);
    (Bird { r: [word32(seed, k1), word32(seed, k1 + 1)], v: v, v0: SPEED }, k1 + 2)
}

/// `birds` followed by `m` birds drawn from word `k` of the stream of `seed`
/// on, and the first word left unused.
pub open spec fn grown(birds: Seq<Bird>, seed: u64, k: nat, m: nat) -> (Seq<Bird>, nat)
    decreases m,
{
    if m == 0 {
        (birds, k)
    } else {
        let (prev, k1) = grown(birds, seed, k, (m - 1) as nat);
        let (b, k2) = bird_from(seed, k1);
        (prev.push(b), k2)
    }
}

/// A drawn direction has unit length.
pub proof fn lemma_heading_unit(seed: u64, k: nat, t: nat)
    ensures
        unit_length(heading_from(seed, k, t).0),
        -ONE <= heading_from(seed, k, t).0[0] <= ONE,
        -ONE <= heading_from(seed, k, t).0[1] <= ONE,
    decreases HEADING_TRIES - t,
{
    if t < HEADING_TRIES {
        let x = word32(seed, k) - 0x8000_0000;
        let y = word32(seed, k + 1) - 0x8000_0000;
        if accepted(x, y) {
            assert(x != 0 || y != 0);
            lemma_unit_length(x, y);
            let v = heading_from(seed, k, t).0;
            assert(-ONE <= v[0] <= ONE && -ONE <= v[1] <= ONE) by (nonlinear_arith)
                requires
                    v[0] * v[0] + v[1] * v[1] <= ONE * ONE,
                    ONE > 0,
            ;
        } else {
            lemma_heading_unit(seed, k + 2, t + 1);
        }
    }
}

/// Growing keeps the birds there were and adds `m` birds of unit heading and
/// speed [`SPEED`].
pub proof fn lemma_grown(birds: Seq<Bird>, seed: u64, k: nat, m: nat)
    ensures
        grown(birds, seed, k, m).0.len() == birds.len() + m,
        grown(birds, seed, k, m).0.take(birds.len() as int) == birds,
        forall|i: int| birds.len() <= i < birds.len() + m ==> {
            &&& unit_length((#[trigger] grown(birds, seed, k, m).0[i]).v)
            &&& grown(birds, seed, k, m).0[i].wf()
            &&& grown(birds, seed, k, m).0[i].v0 == SPEED
        },
    decreases m,
{
    if m > 0 {
        let (prev, k1) = grown(birds, seed, k, (m - 1) as nat);
        lemma_grown(birds, seed, k, (m - 1) as nat);
        lemma_heading_unit(seed, k1, 0);
        let g = grown(birds, seed, k, m).0;
        assert(g.take(birds.len() as int) =~= prev.take(birds.len() as int));
        assert forall|i: int| birds.len() <= i < birds.len() + m implies {
            &&& unit_length((#[trigger] g[i]).v)
            &&& g[i].wf()
            &&& g[i].v0 == SPEED
        } by {
            if i < birds.len() + m - 1 {
                assert(g[i] == prev[i]);
            }
        }
    }
}

/// A random direction of unit length: a point drawn uniformly from a ring
/// around the centre of the drawing square, scaled to length [`ONE`].
fn random_heading(stream: &mut Stream) -> (v: [i64; 2])
    ensures
        (v, final(stream).count()) == heading_from(old(stream).seed(), old(stream).count(), 0),
        final(stream).seed() == old(stream).seed(),
{
    let ghost seed = stream.seed();
    let ghost k0 = stream.count();
    let mut t: usize = 0;
    let mut result: [i64; 2] = [ONE, 0];
    let mut done = false;
    while t < HEADING_TRIES && !done
        invariant
            t <= HEADING_TRIES,
            stream.seed() == seed,
            done ==> (result, stream.count()) == heading_from(seed, k0, 0),
            !done ==> result == [ONE, 0],
            seed == old(stream).seed(),
            k0 == old(stream).count(),
            !done ==> heading_from(seed, k0, 0) == heading_from(seed, stream.count(), t as nat),
        decreases HEADING_TRIES - t,
    {
        let ghost k = stream.count();
        let x: i64 = draw_u32(stream) as i64 - 0x8000_0000;
        let y: i64 = draw_u32(stream) as i64 - 0x8000_0000;
        let xw: i128 = x as i128;
        let yw: i128 = y as i128;
        assert(0 <= xw * xw <= 0x4000_0000_0000_0000 && 0 <= yw * yw <= 0x4000_0000_0000_0000) by (nonlinear_arith)
            requires
                -0x8000_0000 <= xw <= 0x8000_0000,
                -0x8000_0000 <= yw <= 0x8000_0000,
        ;
        let d: i128 = xw * xw + yw * yw;
        let ghost xi = word32(seed, k) - 0x8000_0000;
        let ghost yi = word32(seed, k + 1) - 0x8000_0000;
        assert(xi == x && yi == y);
        assert(d == xi * xi + yi * yi);
        if 0x100_0000_0000 <= d && d < 0x4000_0000_0000_0000 {
            assert(xw * xw <= d && yw * yw <= d);
            let hx = unit_component(xw, d as u128);
            let hy = unit_component(yw, d as u128);
            proof {
                assert(accepted(xi, yi));
                assert(heading_from(seed, k, t as nat) == ([unit_part(xi, xi, yi) as i64, unit_part(yi, xi, yi) as i64], k + 2));
            }
            result = [hx, hy];
            done = true;
        } else {
            proof {
                assert(!accepted(xi, yi));
                assert(heading_from(seed, k, t as nat) == heading_from(seed, k + 2, (t + 1) as nat));
            }
        }
        t = t + 1;
    }
    proof {
        if !done {
            assert(heading_from(seed, stream.count(), t as nat) == ([ONE, 0], stream.count()));
        }
    }
    result
}

/// Filling a grid in index order: binning one more bird adds its index to its cell.
proof fn lemma_binned_push(birds: Seq<Bird>, l: nat, k: nat)
    requires
        k < birds.len(),
        k <= usize::MAX,
        cell_of(birds[k as int].r, l) < l * l,
    ensures
        binned(birds, l, k + 1) == binned(birds, l, k).update(
            cell_of(birds[k as int].r, l) as int,
            binned(birds, l, k)[cell_of(birds[k as int].r, l) as int].insert(k as usize),
        ),
{
    let c = cell_of(birds[k as int].r, l) as int;
    let a = binned(birds, l, k + 1);
    let b = binned(birds, l, k).update(c, binned(birds, l, k)[c].insert(k as usize));
    assert forall|i: int| 0 <= i < a.len() implies a[i] == b[i] by {
        assert(a[i] =~= b[i]);
    }
    assert(a =~= b);
}

/// Binning no bird leaves every cell empty.
proof fn lemma_binned_none(cells: Seq<Set<usize>>, birds: Seq<Bird>, l: nat)
    requires
        cells.len() == l * l,
        forall|c: int| 0 <= c < cells.len() ==> (#[trigger] cells[c]) == Set::<usize>::empty(),
    ensures
        cells == binned(birds, l, 0),
{
    let b = binned(birds, l, 0);
    assert forall|i: int| 0 <= i < cells.len() implies cells[i] == b[i] by {
        assert(cells[i] =~= b[i]);
    }
    assert(cells =~= b);
}

/// Only the birds below `upto` are binned.
proof fn lemma_binned_prefix(birds: Seq<Bird>, more: Seq<Bird>, l: nat, upto: nat)
    requires
        upto <= birds.len(),
        upto <= more.len(),
        forall|j: int| 0 <= j < upto ==> birds[j] == more[j],
    ensures
        binned(birds, l, upto) == binned(more, l, upto),
{
    let a = binned(birds, l, upto);
    let b = binned(more, l, upto);
    assert forall|i: int| 0 <= i < a.len() implies a[i] == b[i] by {
        assert(a[i] =~= b[i]);
    }
    assert(a =~= b);
}

/// A grid filled with every bird holds each index in its bird's cell alone,
/// so a ring of the grid holds exactly the birds whose cells lie on it.
proof fn lemma_binned_ring(birds: Seq<Bird>, l: nat, c0: int, m: nat)
    requires
        l > 0,
    ensures
        ring_members(binned(birds, l, birds.len()), l, c0, m) == Set::new(
            |j: usize| j < birds.len() && ring_of(l, c0, cell_of(birds[j as int].r, l) as int) == m,
        ),
        disjoint_cells(binned(birds, l, birds.len())),
{
    let cells = binned(birds, l, birds.len());
    let want = Set::new(|j: usize| j < birds.len() && ring_of(l, c0, cell_of(birds[j as int].r, l) as int) == m);
    assert forall|j: usize| ring_members(cells, l, c0, m).contains(j) <==> want.contains(j) by {
        if want.contains(j) {
            let c = cell_of(birds[j as int].r, l) as int;
            crate::grid::lemma_cell_on_grid(birds[j as int].r, l);
            assert(cells[c].contains(j));
        }
    }
    assert(ring_members(cells, l, c0, m) =~= want);
}

/// The side of the grid for `n` birds: about `sqrt(n)` cells.
fn grid_side(n: usize) -> (l: usize)
    requires
        n > 0,
    ensures
        l == root(n as nat),
        l > 0,
        l * l <= n,
{
    proof {
        lemma_root_exists(n as nat);
    }
    let l = isqrt(n as u128);
    assert(l * l <= n);
    assert(l > 0) by (nonlinear_arith)
        requires
            n < (l + 1) * (l + 1),
            n > 0,
    ;
    assert(l <= n) by (nonlinear_arith)
        requires
            l * l <= n,
            l > 0,
    ;
    l as usize
}

impl Vicsek {
    /// The proximity rule in force.
    pub closed spec fn policy(&self) -> Proximity {
        self.proximity
    }

    /// The noise level in force.
    pub closed spec fn noise_level(&self) -> u32 {
        self.eta
    }

    /// The seed the flock was built from.
    pub closed spec fn seed(&self) -> u64 {
        self.stream.seed()
    }

    /// Number of words drawn so far from the stream of the seed.
    pub closed spec fn draws(&self) -> nat {
        self.stream.count()
    }

    /// The grid cells, each with the indices of the birds inside it.
    pub closed spec fn grid(&self) -> Seq<Set<usize>> {
        self.cell_list@
    }

    /// Side of the grid.
    pub closed spec fn grid_side(&self) -> nat {
        self.cell_list.side()
    }

    /// Between 1 and [`MAX_BIRDS`] birds, each with bounded heading, binned
    /// in a grid of side `root(n)` that holds each index in its bird's cell.
    pub closed spec fn wf(&self) -> bool {
        let n = self.birds@.len();
        &&& 1 <= n <= MAX_BIRDS
        &&& forall|i: int| 0 <= i < n ==> (#[trigger] self.birds@[i]).wf()
        &&& self.cell_list.wf()
        &&& self.cell_list.side() == root(n)
        &&& self.cell_list@ == binned(self.birds@, root(n), n)
    }

    /// The grid holds each bird index in exactly one cell, and nothing else.
    pub proof fn lemma_grid_holds_all(&self)
        requires
            self.wf(),
        ensures
            forall|j: usize| #[trigger] in_some_cell(self.grid(), j) <==> j < self@.len(),
            disjoint_cells(self.grid()),
    {
        let n = self@.len();
        let l = root(n);
        let cells = self.grid();
        lemma_binned_ring(self@, l, 0, 0);
        assert forall|j: usize| #[trigger] in_some_cell(cells, j) <==> j < n by {
            if j < n {
                crate::grid::lemma_cell_on_grid(self@[j as int].r, l);
                let c = cell_of(self@[j as int].r, l) as int;
                assert(cells[c].contains(j));
            }
        }
    }

    /// What a well-formed flock holds: between 1 and [`MAX_BIRDS`] birds of
    /// bounded heading, and a grid of side `root(n)` whose cell `c` holds
    /// exactly the indices of the birds inside cell `c`.
    pub proof fn lemma_wf_facts(&self)
        requires
            self.wf(),
        ensures
            1 <= self@.len() <= MAX_BIRDS,
            forall|i: int| 0 <= i < self@.len() ==> (#[trigger] self@[i]).wf(),
            self.grid_side() == root(self@.len()),
            self.grid_side() > 0,
            self.grid() == binned(self@, self.grid_side(), self@.len()),
    {
    }

    /// The birds, read-only.
    pub fn birds(&self) -> (b: &Vec<Bird>)
        ensures
            b@ == self@,
    {
        &self.birds
    }

    /// The birds other than `i` in ring `m` around bird `i`, in increasing index order.
    fn sorted_ring(&self, i: usize, m: usize) -> (v: Vec<usize>)
        requires
            self.wf(),
            i < self@.len(),
        ensures
            v@ == ring_seq(self@, i as int, m as nat),
    {
        let ring = self.cell_list.adjacent_level(self.birds[i].r, m);
        let ghost birds = self@;
        let ghost l = root(birds.len());
        let ghost pred = |j: usize| other_in_ring(birds, i as int, m as nat, j);
        proof {
            lemma_binned_ring(birds, l, cell_of(birds[i as int].r, l) as int, m as nat);
        }
        let others = without(&ring, i);
        let sorted = sort_unique(others);
        proof {
            lemma_filter_indices(birds.len(), pred);
            let f = indices(birds.len()).filter(pred);
            assert forall|j: usize| sorted@.to_set().contains(j) <==> f.to_set().contains(j) by {
                assert(f.contains(j) <==> (j < birds.len() && pred(j)));
            }
            assert(sorted@.to_set() =~= f.to_set());
            lemma_increasing_unique(sorted@, f);
        }
        sorted
    }

    /// The `k` birds nearest to bird `i` by ring, lower index first within a ring.
    fn neighbors_of(&self, i: usize, k: usize) -> (v: Vec<usize>)
        requires
            self.wf(),
            i < self@.len(),
        ensures
            v@ == nearest(self@, i as int, k as nat),
    {
        let ghost birds = self@;
        let ghost all = all_by_ring(birds, i as int);
        let l = self.cell_list.l();
        let last = l / 2;
        let mut out: Vec<usize> = Vec::new();
        if k > 0 {
            out.push(i);
        }
        proof {
            lemma_rings_prefix(birds, i as int, 0, last as nat);
            assert(rings_upto(birds, i as int, 0)[0] == i);
            assert(out@ =~= all.take(out@.len() as int));
        }
        let mut m: usize = 0;
        while m <= last && out.len() < k
            invariant
                self.wf(),
                birds == self@,
                i < birds.len(),
                l == root(birds.len()),
                last == last_ring(l as nat),
                all == rings_upto(birds, i as int, last as nat),
                m <= last + 1,
                out@.len() <= k,
                out@.len() <= all.len(),
                out@ == all.take(out@.len() as int),
                out@.len() < k ==> out@ == (if m == 0 { seq![i as usize] } else { rings_upto(birds, i as int, (m - 1) as nat) }),
            decreases last + 1 - m,
        {
            let ring = self.sorted_ring(i, m);
            let ghost before = out@;
            let ghost upto = rings_upto(birds, i as int, m as nat);
            proof {
                assert(upto =~= before + ring@) by {
                    if m > 0 {
                        assert(upto == rings_upto(birds, i as int, (m - 1) as nat) + ring_seq(birds, i as int, m as nat));
                    }
                }
                lemma_rings_prefix(birds, i as int, m as nat, last as nat);
            }
            let mut t: usize = 0;
            while t < ring.len() && out.len() < k
                invariant
                    t <= ring@.len(),
                    out@ == before + ring@.take(t as int),
                    out@.len() <= k,
                    upto == before + ring@,
                    upto.len() <= all.len(),
                    all.take(upto.len() as int) == upto,
                decreases ring@.len() - t,
            {
                out.push(ring[t]);
                t = t + 1;
                assert(ring@.take(t as int) =~= ring@.take(t - 1).push(ring@[t - 1]));
            }
            proof {
                assert(out@ =~= upto.take(out@.len() as int));
                assert(all.take(out@.len() as int) =~= upto.take(out@.len() as int));
                if out@.len() < k {
                    assert(ring@.take(t as int) =~= ring@);
                }
            }
            m = m + 1;
        }
        proof {
            if out@.len() < k {
                assert(out@ == all);
            } else {
                if k == all.len() {
                    assert(all.take(k as int) =~= all);
                }
            }
        }
        out
    }

    /// The birds closer than `r` to bird `i`, in increasing index order.
    fn within_radius(&self, i: usize, r: u32) -> (v: Vec<usize>)
        requires
            self.wf(),
            i < self@.len(),
        ensures
            v@ == within(self@, i as int, r),
    {
        let ghost birds = self@;
        let ghost n = birds.len();
        let l = self.cell_list.l();
        let reach = self.cell_list.distance_to_level(r);
        let last = if reach < l / 2 { reach } else { l / 2 };
        assert((r as u64) * (r as u64) <= u64::MAX) by (nonlinear_arith)
            requires
                r <= u32::MAX,
        ;
        let rr: u64 = (r as u64) * (r as u64);
        let me = self.birds[i];
        let mut found: Vec<usize> = Vec::new();
        let mut m: usize = 0;
        proof {
            assert(found@.to_set() =~= Set::new(|j: usize| j < n && ring_between(birds, i as int, j as int) < 0 && close(birds, i as int, r, j as int)));
        }
        while m <= last
            invariant
                self.wf(),
                birds == self@,
                n == birds.len(),
                i < n,
                me == birds[i as int],
                l == root(n),
                rr == r * r,
                last <= l / 2,
                last == reach || last == l / 2,
                reach == ((r as nat) * l + TORUS - 1) / (TORUS as int) + 1,
                m <= last + 1,
                found@.to_set() == Set::new(|j: usize| j < n && ring_between(birds, i as int, j as int) < m && close(birds, i as int, r, j as int)),
                found@.no_duplicates(),
            decreases last + 1 - m,
        {
            let ring = self.cell_list.adjacent_level(me.r, m);
            let ghost before = found@;
            proof {
                lemma_binned_ring(birds, l as nat, cell_of(birds[i as int].r, l as nat) as int, m as nat);
            }
            let mut t: usize = 0;
            while t < ring.len()
                invariant
                    self.wf(),
                    birds == self@,
                    n == birds.len(),
                    i < n,
                    me == birds[i as int],
                    rr == r * r,
                    t <= ring@.len(),
                    ring@.no_duplicates(),
                    ring@.to_set() == Set::new(|j: usize| j < n && ring_between(birds, i as int, j as int) == m),
                    before.to_set() == Set::new(|j: usize| j < n && ring_between(birds, i as int, j as int) < m && close(birds, i as int, r, j as int)),
                    before.no_duplicates(),
                    found@.no_duplicates(),
                    found@.to_set() == before.to_set().union(Set::new(|j: usize| ring@.take(t as int).contains(j) && close(birds, i as int, r, j as int))),
                decreases ring@.len() - t,
            {
                let j = ring[t];
                assert(ring@.to_set().contains(j));
                let ghost old_found = found@;
                let d = me.dist2(&self.birds[j]);
                let keep = d < rr;
                assert(keep == close(birds, i as int, r, j as int));
                if keep {
                    proof {
                        assert(!old_found.contains(j)) by {
                            if old_found.contains(j) {
                                assert(old_found.to_set().contains(j));
                                if before.to_set().contains(j) {
                                } else {
                                    let q = choose|q: int| 0 <= q < t && ring@[q] == j;
                                    assert(ring@.take(t as int)[q] == j);
                                }
                            }
                        }
                    }
                    found.push(j);
                }
                t = t + 1;
                proof {
                    let tk = ring@.take(t as int);
                    let tk0 = ring@.take(t - 1);
                    assert(tk =~= tk0.push(j));
                    assert forall|x: usize| tk.contains(x) <==> (tk0.contains(x) || x == j) by {
                        if tk0.contains(x) {
                            let w = choose|w: int| 0 <= w < tk0.len() && tk0[w] == x;
                            assert(tk[w] == x);
                        }
                        if x == j {
                            assert(tk[t - 1] == x);
                        }
                        if tk.contains(x) {
                            let w = choose|w: int| 0 <= w < tk.len() && tk[w] == x;
                            if w < t - 1 {
                                assert(tk0[w] == x);
                            }
                        }
                    }
                    let sel = Set::new(|x: usize| tk.contains(x) && close(birds, i as int, r, x as int));
                    let sel0 = Set::new(|x: usize| tk0.contains(x) && close(birds, i as int, r, x as int));
                    if keep {
                        old_found.lemma_push_to_set_commute(j);
                        assert(sel =~= sel0.insert(j));
                    } else {
                        assert(sel =~= sel0);
                    }
                    assert(found@.to_set() =~= before.to_set().union(Set::new(|x: usize| tk.contains(x) && close(birds, i as int, r, x as int))));
                }
            }
            proof {
                assert(ring@.take(t as int) =~= ring@);
                assert forall|j: usize| found@.to_set().contains(j) <==> (j < n && ring_between(birds, i as int, j as int) < m + 1 && close(birds, i as int, r, j as int)) by {
                    if j < n && ring_between(birds, i as int, j as int) == m {
                        assert(ring@.to_set().contains(j));
                        assert(ring@.contains(j));
                    }
                    if ring@.contains(j) {
                        assert(ring@.to_set().contains(j));
                    }
                }
                assert(found@.to_set() =~= Set::new(|j: usize| j < n && ring_between(birds, i as int, j as int) < m + 1 && close(birds, i as int, r, j as int)));
            }
            m = m + 1;
        }
        let ghost pred = |j: usize| close(birds, i as int, r, j as int);
        let sorted = sort_unique(found);
        proof {
            lemma_filter_indices(n, pred);
            let f = indices(n).filter(pred);
            assert forall|j: usize| sorted@.to_set().contains(j) <==> f.to_set().contains(j) by {
                assert(f.contains(j) <==> (j < n && pred(j)));
                if j < n && pred(j) {
                    lemma_close_in_reach(birds, i as int, j as int, r);
                }
            }
            assert(sorted@.to_set() =~= f.to_set());
            lemma_increasing_unique(sorted@, f);
        }
        sorted
    }

    /// The birds at the given indices.
    fn pick(&self, idx: &Vec<usize>) -> (v: Vec<Bird>)
        requires
            forall|k: int| 0 <= k < idx@.len() ==> (#[trigger] idx@[k]) < self@.len(),
        ensures
            v@ == pick(self@, idx@),
    {
        let mut v: Vec<Bird> = Vec::new();
        let mut t: usize = 0;
        while t < idx.len()
            invariant
                t <= idx@.len(),
                forall|k: int| 0 <= k < idx@.len() ==> (#[trigger] idx@[k]) < self@.len(),
                v@ == pick(self@, idx@.take(t as int)),
            decreases idx@.len() - t,
        {
            v.push(self.birds[idx[t]]);
            t = t + 1;
            assert(pick(self@, idx@.take(t as int)) =~= pick(self@, idx@.take(t - 1)).push(self@[idx@[t - 1] as int]));
        }
        assert(idx@.take(t as int) =~= idx@);
        v
    }

    /// The indices of the birds that bird `i` aligns with under the rule in
    /// force: for `Neighbors(k)` the `k` nearest by grid ring, then by index;
    /// for `Radius(r)` every bird closer than `r`, in index order.
    pub fn candidates(&self, i: usize) -> (v: Vec<usize>)
        requires
            self.wf(),
            i < self@.len(),
        ensures
            v@ == candidates(self@, self.policy(), i as int),
    {
        match self.proximity {
            Proximity::Neighbors(k) => self.neighbors_of(i, k),
            Proximity::Radius(r) => self.within_radius(i, r),
        }
    }

    /// The new state of bird `i`: aligned with the birds its rule picks, given
    /// its noise, then moved one step.
    fn next_bird(&self, i: usize, noise: [i32; 2]) -> (b: Bird)
        requires
            self.wf(),
            i < self@.len(),
        ensures
            b == moved(turned(self@[i as int], pick(self@, candidates(self@, self.policy(), i as int)), noise)),
            b.wf(),
    {
        proof {
            lemma_candidates_valid(self@, self.proximity, i as int);
        }
        let cand = self.candidates(i);
        let picked = self.pick(&cand);
        let mut b = self.birds[i];
        proof {
            assert forall|q: int| 0 <= q < picked@.len() implies (#[trigger] picked@[q]).wf() by {
                assert(self.birds@[cand@[q] as int].wf());
            }
        }
        let _ = b.update_direction(picked.as_slice(), noise);
        b.update_r();
        b
    }

    /// One synchronous step: every bird reads the flock as it was before the
    /// step; then the grid is rebuilt from the new positions.
    fn step(&mut self, noise: &Vec<[i32; 2]>)
        requires
            old(self).wf(),
            noise@.len() == old(self)@.len(),
        ensures
            final(self).wf(),
            final(self)@ == step_spec(old(self)@, old(self).policy(), noise@),
            final(self).policy() == old(self).policy(),
            final(self).noise_level() == old(self).noise_level(),
            final(self).seed() == old(self).seed(),
            final(self).draws() == old(self).draws(),
    {
        let n = self.birds.len();
        let ghost target = step_spec(self@, self.proximity, noise@);
        let mut next: Vec<Bird> = Vec::new();
        let mut i: usize = 0;
        while i < n
            invariant
                self.wf(),
                self == old(self),
                n == self@.len(),
                noise@.len() == n,
                target == step_spec(self@, self.proximity, noise@),
                i <= n,
                next@.len() == i,
                forall|k: int| 0 <= k < i ==> next@[k] == target[k],
                forall|k: int| 0 <= k < i ==> (#[trigger] next@[k]).wf(),
            decreases n - i,
        {
            let b = self.next_bird(i, noise[i]);
            next.push(b);
            i = i + 1;
        }
        assert(next@ =~= target);
        self.birds = next;
        self.recreate_cell_list();
    }

    /// Advances the flock by one synchronous step for each entry of `noise`;
    /// entry `s` holds the noise of every bird, in order, for step `s`.
    ///
    /// The outcome depends on the birds, the proximity rule and the noise
    /// alone: never on the order in which the grid holds its indices.
    pub fn sweep(&mut self, noise: &Vec<Vec<[i32; 2]>>)
        requires
            old(self).wf(),
            forall|s: int| 0 <= s < noise@.len() ==> (#[trigger] noise@[s])@.len() == old(self)@.len(),
        ensures
            final(self).wf(),
            final(self)@ == sweep_spec(old(self)@, old(self).policy(), noise@.map_values(|v: Vec<[i32; 2]>| v@)),
            final(self).policy() == old(self).policy(),
            final(self).noise_level() == old(self).noise_level(),
            final(self).seed() == old(self).seed(),
            final(self).draws() == old(self).draws(),
    {
        let ghost all = noise@.map_values(|v: Vec<[i32; 2]>| v@);
        let mut s: usize = 0;
        assert(all.take(0) =~= Seq::<Seq<[i32; 2]>>::empty());
        while s < noise.len()
            invariant
                self.wf(),
                s <= noise@.len(),
                all == noise@.map_values(|v: Vec<[i32; 2]>| v@),
                forall|q: int| 0 <= q < noise@.len() ==> (#[trigger] noise@[q])@.len() == old(self)@.len(),
                self@.len() == old(self)@.len(),
                self@ == sweep_spec(old(self)@, old(self).policy(), all.take(s as int)),
                self.policy() == old(self).policy(),
                self.noise_level() == old(self).noise_level(),
                self.seed() == old(self).seed(),
                self.draws() == old(self).draws(),
            decreases noise@.len() - s,
        {
            self.step(&noise[s]);
            s = s + 1;
            assert(all.take(s as int).drop_last() =~= all.take(s - 1));
        }
        assert(all.take(s as int) =~= all);
    }

    /// Appends a bird with a random position and direction, and bins it.
    fn add_bird(&mut self)
        requires
            old(self).cell_list.wf(),
            old(self).birds@.len() < MAX_BIRDS,
            old(self).cell_list@ == binned(old(self).birds@, old(self).cell_list.side(), old(self).birds@.len()),
        ensures
            final(self).cell_list.wf(),
            final(self).cell_list.side() == old(self).cell_list.side(),
            final(self).birds@ == old(self).birds@.push(bird_from(old(self).stream.seed(), old(self).stream.count()).0),
            final(self).birds@.last().wf(),
            final(self).stream.count() == bird_from(old(self).stream.seed(), old(self).stream.count()).1,
            final(self).stream.seed() == old(self).stream.seed(),
            final(self).cell_list@ == binned(final(self).birds@, final(self).cell_list.side(), final(self).birds@.len()),
            final(self).proximity == old(self).proximity,
            final(self).eta == old(self).eta,
    {
        let v = random_heading(&mut self.stream);
        let x = draw_u32(&mut self.stream);
        let y = draw_u32(&mut self.stream);
        let r = [x, y];
        let idx = self.birds.len();
        self.cell_list.add(r, idx);
        self.birds.push(Bird::new(r, v, SPEED));
        proof {
            let l = self.cell_list.side();
            crate::grid::lemma_cell_on_grid(r, l);
            lemma_binned_prefix(old(self).birds@, self.birds@, l, idx as nat);
            lemma_binned_push(self.birds@, l, idx as nat);
            assert(self.birds@.drop_last() =~= old(self).birds@);
            lemma_heading_unit(old(self).stream.seed(), old(self).stream.count(), 0);
        }
    }

    /// Bins every bird into an empty grid.
    fn fill_cell_list(&mut self)
        requires
            old(self).cell_list.wf(),
            forall|c: int| 0 <= c < old(self).cell_list@.len() ==> (#[trigger] old(self).cell_list@[c]) == Set::<usize>::empty(),
        ensures
            final(self).cell_list.wf(),
            final(self).cell_list.side() == old(self).cell_list.side(),
            final(self).cell_list@ == binned(old(self).birds@, old(self).cell_list.side(), old(self).birds@.len()),
            final(self).birds == old(self).birds,
            final(self).proximity == old(self).proximity,
            final(self).eta == old(self).eta,
            final(self).stream == old(self).stream,
    {
        let ghost l = self.cell_list.side();
        proof {
            lemma_binned_none(self.cell_list@, self.birds@, l);
        }
        let mut idx: usize = 0;
        while idx < self.birds.len()
            invariant
                idx <= self.birds@.len(),
                self.birds == old(self).birds,
                self.proximity == old(self).proximity,
                self.eta == old(self).eta,
                self.stream == old(self).stream,
                self.cell_list.wf(),
                self.cell_list.side() == l,
                self.cell_list@ == binned(self.birds@, l, idx as nat),
            decreases self.birds@.len() - idx,
        {
            let r = self.birds[idx].r;
            self.cell_list.add(r, idx);
            proof {
                crate::grid::lemma_cell_on_grid(r, l);
                lemma_binned_push(self.birds@, l, idx as nat);
            }
            idx = idx + 1;
        }
    }

    /// Empties the grid and bins every bird again.
    fn recreate_cell_list(&mut self)
        requires
            old(self).cell_list.wf(),
        ensures
            final(self).cell_list.wf(),
            final(self).cell_list.side() == old(self).cell_list.side(),
            final(self).cell_list@ == binned(old(self).birds@, old(self).cell_list.side(), old(self).birds@.len()),
            final(self).birds == old(self).birds,
            final(self).proximity == old(self).proximity,
            final(self).eta == old(self).eta,
            final(self).stream == old(self).stream,
    {
        self.cell_list.clear();
        self.fill_cell_list();
    }

    /// A flock of `n` birds at random positions with random directions, each
    /// moving at [`SPEED`], drawn from a generator seeded with `seed`.
    pub fn new(n: usize, proximity: Proximity, seed: u64) -> (res: Result<Vicsek, ConfigError>)
        ensures
            match res {
                Ok(v) => {
                    &&& config_error(n as nat, proximity) is None
                    &&& v.wf()
                    &&& v@.len() == n
                    &&& v.policy() == proximity
                    &&& v.noise_level() == DEFAULT_ETA
                    &&& v.seed() == seed
                    &&& v@ == grown(Seq::empty(), seed, 0, n as nat).0
                    &&& v.draws() == grown(Seq::empty(), seed, 0, n as nat).1
                    &&& forall|i: int| 0 <= i < n ==> unit_length((#[trigger] v@[i]).v) && v@[i].v0 == SPEED
                },
                Err(e) => config_error(n as nat, proximity) == Some(e),
            },
    {
        if n == 0 {
            return Err(ConfigError::NoBirds);
        }
        if n > MAX_BIRDS {
            return Err(ConfigError::TooManyBirds);
        }
        match proximity {
            Proximity::Neighbors(k) => {
                if k == 0 {
                    return Err(ConfigError::NoNeighbors);
                }
            },
            Proximity::Radius(r) => {
                if r == 0 {
                    return Err(ConfigError::ZeroRadius);
                }
            },
        }
        let l = grid_side(n);
        let mut v = Vicsek {
            birds: Vec::new(),
            proximity,
            eta: DEFAULT_ETA,
            stream: seeded(seed),
            cell_list: CellList::new(l),
        };
        proof {
            lemma_binned_none(v.cell_list@, v.birds@, l as nat);
        }
        while v.birds.len() < n
            invariant
                v.birds@.len() <= n <= MAX_BIRDS,
                v.proximity == proximity,
                v.eta == DEFAULT_ETA,
                v.cell_list.wf(),
                v.cell_list.side() == l,
                v.cell_list@ == binned(v.birds@, l as nat, v.birds@.len()),
                v.stream.seed() == seed,
                v.birds@ == grown(Seq::empty(), seed, 0, v.birds@.len()).0,
                v.stream.count() == grown(Seq::empty(), seed, 0, v.birds@.len()).1,
            decreases n - v.birds@.len(),
        {
            v.add_bird();
        }
        proof {
            lemma_grown(Seq::empty(), seed, 0, n as nat);
            assert forall|i: int| 0 <= i < n implies (#[trigger] v.birds@[i]).wf() by {}
        }
        Ok(v)
    }

    /// Puts proximity rule `p` in force from the next sweep on.
    pub fn set_proximity(&mut self, p: Proximity) -> (res: Result<(), ConfigError>)
        requires
            old(self).wf(),
        ensures
            final(self).wf(),
            final(self)@ == old(self)@,
            final(self).noise_level() == old(self).noise_level(),
            final(self).seed() == old(self).seed(),
            final(self).draws() == old(self).draws(),
            match rule_error(p) {
                Some(e) => res == Err::<(), ConfigError>(e) && final(self).policy() == old(self).policy(),
                None => res is Ok && final(self).policy() == p,
            },
    {
        match p {
            Proximity::Neighbors(k) => {
                if k == 0 {
                    return Err(ConfigError::NoNeighbors);
                }
            },
            Proximity::Radius(r) => {
                if r == 0 {
                    return Err(ConfigError::ZeroRadius);
                }
            },
        }
        self.proximity = p;
        Ok(())
    }

    /// Sets the noise level, in heading units.
    pub fn set_eta(&mut self, eta: u32)
        requires
            old(self).wf(),
        ensures
            final(self).wf(),
            final(self)@ == old(self)@,
            final(self).policy() == old(self).policy(),
            final(self).noise_level() == eta,
            final(self).seed() == old(self).seed(),
            final(self).draws() == old(self).draws(),
    {
        self.eta = eta;
    }

    /// Draws the next word of the flock's stream, for noise drawn by the caller.
    pub fn draw_u64(&mut self) -> (r: u64)
        requires
            old(self).wf(),
        ensures
            r == pcg_word(old(self).seed(), old(self).draws()),
            final(self).wf(),
            final(self)@ == old(self)@,
            final(self).grid() == old(self).grid(),
            final(self).seed() == old(self).seed(),
            final(self).draws() == old(self).draws() + 1,
            final(self).policy() == old(self).policy(),
            final(self).noise_level() == old(self).noise_level(),
    {
        draw_u64(&mut self.stream)
    }

    /// Grows the flock with random birds, or cuts it back to its first `n`
    /// birds; the grid is resized to suit `n` birds.
    pub fn set_num_birds(&mut self, n: usize) -> (res: Result<(), ConfigError>)
        requires
            old(self).wf(),
        ensures
            final(self).wf(),
            final(self).policy() == old(self).policy(),
            final(self).noise_level() == old(self).noise_level(),
            final(self).seed() == old(self).seed(),
            n == 0 ==> res == Err::<(), ConfigError>(ConfigError::NoBirds) && *final(self) == *old(self),
            n > MAX_BIRDS ==> res == Err::<(), ConfigError>(ConfigError::TooManyBirds) && *final(self) == *old(self),
            n == old(self)@.len() ==> res is Ok && *final(self) == *old(self),
            1 <= n <= MAX_BIRDS ==> {
                &&& res is Ok
                &&& final(self)@.len() == n
                &&& n <= old(self)@.len() ==> final(self)@ == old(self)@.take(n as int)
                    && final(self).draws() == old(self).draws()
                &&& n > old(self)@.len() ==> final(self)@ == grown(old(self)@, old(self).seed(), old(self).draws(), (n - old(self)@.len()) as nat).0
                    && final(self).draws() == grown(old(self)@, old(self).seed(), old(self).draws(), (n - old(self)@.len()) as nat).1
                &&& forall|i: int| old(self)@.len() <= i < n ==> unit_length((#[trigger] final(self)@[i]).v) && final(self)@[i].v0 == SPEED
            },
    {
        if n == 0 {
            return Err(ConfigError::NoBirds);
        }
        if n > MAX_BIRDS {
            return Err(ConfigError::TooManyBirds);
        }
        let old_len = self.birds.len();
        if n == old_len {
            return Ok(());
        }
        let ghost start = self.birds@;
        let ghost seed = self.stream.seed();
        let ghost k0 = self.stream.count();
        if n > old_len {
            while self.birds.len() < n
                invariant
                    old_len <= self.birds@.len() <= n <= MAX_BIRDS,
                    self.proximity == old(self).proximity,
                    self.eta == old(self).eta,
                    self.cell_list.wf(),
                    self.cell_list.side() == root(old_len as nat),
                    self.cell_list@ == binned(self.birds@, self.cell_list.side(), self.birds@.len()),
                    start.len() == old_len,
                    self.stream.seed() == seed,
                    self.birds@ == grown(start, seed, k0, (self.birds@.len() - old_len) as nat).0,
                    self.stream.count() == grown(start, seed, k0, (self.birds@.len() - old_len) as nat).1,
                decreases n - self.birds@.len(),
            {
                self.add_bird();
                proof {
                    assert((self.birds@.len() - old_len - 1) as nat == ((self.birds@.len() - old_len) as nat - 1) as nat);
                }
            }
            proof {
                lemma_grown(start, seed, k0, (n - old_len) as nat);
                assert forall|i: int| 0 <= i < self.birds@.len() implies (#[trigger] self.birds@[i]).wf() by {
                    if i < old_len {
                        assert(self.birds@[i] == self.birds@.take(old_len as int)[i]);
                    }
                }
            }
        } else {
            self.birds.truncate(n);
        }
        let l = grid_side(n);
        if n < old_len || l != self.cell_list.l() {
            self.cell_list = CellList::new(l);
            self.fill_cell_list();
        }
        proof {
            if n < old_len {
                assert(self.birds@ =~= start.take(n as int));
            }
        }
        Ok(())
    }
}

} // verus!
