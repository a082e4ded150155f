//! A uniform grid over the torus that bins bird indices by position.
use std::collections::HashSet;
use vstd::prelude::*;

use crate::fixed::TORUS;
use crate::grid::{abs, cell_coord, cell_of, lemma_cell_join, lemma_cell_split, lemma_offset_of_shift, lemma_offset_range, offset, ring_of};

verus! {

broadcast use vstd::std_specs::hash::group_hash_axioms;

/// The indices held by the cells of ring `n` around cell `c0`.
pub open spec fn ring_members(cells: Seq<Set<usize>>, l: nat, c0: int, n: nat) -> Set<usize> {
    Set::new(|j: usize| exists|c: int| 0 <= c < l * l && ring_of(l, c0, c) == n && #[trigger] cells[c].contains(j))
}

/// Some cell holds index `j`.
pub open spec fn in_some_cell(cells: Seq<Set<usize>>, j: usize) -> bool {
    exists|c: int| 0 <= c < cells.len() && #[trigger] cells[c].contains(j)
}

/// No index is held by two cells.
pub open spec fn disjoint_cells(cells: Seq<Set<usize>>) -> bool {
    forall|a: int, b: int, j: usize|
        0 <= a < cells.len() && 0 <= b < cells.len() && #[trigger] cells[a].contains(j) && #[trigger] cells[b].contains(j) ==> a == b
}

/// Cell `c` comes before the offsets `(dx, dy)` from `c0`, in the order in
/// which a ring is walked: by column offset, then by row offset.
spec fn walked_before(l: nat, c0: int, c: int, dx: int, dy: int) -> bool {
    let li = l as int;
    let ox = offset(l, c0 / li, c / li);
    let oy = offset(l, c0 % li, c % li);
    ox < dx || (ox == dx && oy < dy)
}

/// The members of the cells of ring `n` that come before `(dx, dy)`.
spec fn ring_part(cells: Seq<Set<usize>>, l: nat, c0: int, n: nat, dx: int, dy: int) -> Set<usize> {
    Set::new(|j: usize| exists|c: int|
        0 <= c < l * l && ring_of(l, c0, c) == n && walked_before(l, c0, c, dx, dy) && #[trigger] cells[c].contains(j))
}

/// A cell of ring `n` lies within `n` steps of `c0` along each axis, and
/// within the window of short-way offsets.
proof fn lemma_ring_offsets(l: nat, c0: int, c: int, n: nat)
    requires
        0 <= c0 < l * l,
        0 <= c < l * l,
        ring_of(l, c0, c) == n,
    ensures
        ({
            let li = l as int;
            let ox = offset(l, c0 / li, c / li);
            let oy = offset(l, c0 % li, c % li);
            &&& -(n as int) <= ox <= n
            &&& -(n as int) <= oy <= n
            &&& -((l - 1) / 2) <= ox <= l / 2
            &&& -((l - 1) / 2) <= oy <= l / 2
        }),
{
    lemma_cell_join(l, c0);
    lemma_cell_join(l, c);
    let li = l as int;
    lemma_offset_range(l, c0 / li, c / li);
    lemma_offset_range(l, c0 % li, c % li);
}

/// The cell at offsets `(dx, dy)` from `(x0, y0)`: its index, and the
/// fact that it is the only cell with these offsets.
proof fn lemma_cell_at(l: nat, x0: int, y0: int, dx: int, dy: int)
    requires
        0 <= x0 < l,
        0 <= y0 < l,
        -((l - 1) / 2) <= dx <= l / 2,
        -((l - 1) / 2) <= dy <= l / 2,
    ensures
        ({
            let li = l as int;
            let c0 = x0 * l + y0;
            let c = ((x0 + dx) % li) * l + (y0 + dy) % li;
            &&& 0 <= c0 < l * l
            &&& 0 <= c < l * l
            &&& c0 / li == x0
            &&& c0 % li == y0
            &&& offset(l, x0, c / li) == dx
            &&& offset(l, y0, c % li) == dy
            &&& ring_of(l, c0, c) == (if abs(dx) >= abs(dy) { abs(dx) } else { abs(dy) })
            &&& forall|c2: int|
                #![trigger offset(l, x0, c2 / li), offset(l, y0, c2 % li)]
                0 <= c2 < l * l && offset(l, x0, c2 / li) == dx && offset(l, y0, c2 % li) == dy ==> c2 == c
        }),
{
    let li = l as int;
    vstd::arithmetic::div_mod::lemma_mod_bound(x0 + dx, li);
    vstd::arithmetic::div_mod::lemma_mod_bound(y0 + dy, li);
    lemma_cell_split(l, x0, y0);
    lemma_cell_split(l, (x0 + dx) % li, (y0 + dy) % li);
    lemma_offset_of_shift(l, x0, dx);
    lemma_offset_of_shift(l, y0, dy);
    assert forall|c2: int|
        #![trigger offset(l, x0, c2 / li), offset(l, y0, c2 % li)]
        0 <= c2 < l * l && offset(l, x0, c2 / li) == dx && offset(l, y0, c2 % li) == dy implies c2 == ((x0 + dx) % li) * l + (y0 + dy) % li by {
        lemma_cell_join(l, c2);
        lemma_offset_range(l, x0, c2 / li);
        lemma_offset_range(l, y0, c2 % li);
    }
}

proof fn lemma_ring_part_start(cells: Seq<Set<usize>>, l: nat, c0: int, n: nat, lo: int)
    requires
        0 <= c0 < l * l,
        lo == -(if n <= (l - 1) / 2 { n as int } else { (l - 1) / 2 }),
    ensures
        ring_part(cells, l, c0, n, lo, lo) == Set::<usize>::empty(),
{
    assert forall|j: usize| !ring_part(cells, l, c0, n, lo, lo).contains(j) by {
        if ring_part(cells, l, c0, n, lo, lo).contains(j) {
            let c = choose|c: int|
                0 <= c < l * l && ring_of(l, c0, c) == n && walked_before(l, c0, c, lo, lo) && #[trigger] cells[c].contains(j);
            lemma_ring_offsets(l, c0, c, n);
        }
    }
    assert(ring_part(cells, l, c0, n, lo, lo) =~= Set::<usize>::empty());
}

proof fn lemma_ring_part_end(cells: Seq<Set<usize>>, l: nat, c0: int, n: nat, lo: int, hi: int)
    requires
        0 <= c0 < l * l,
        hi == (if n <= l / 2 { n as int } else { (l / 2) as int }),
    ensures
        ring_part(cells, l, c0, n, hi + 1, lo) == ring_members(cells, l, c0, n),
{
    assert forall|j: usize| #[trigger] ring_members(cells, l, c0, n).contains(j) implies ring_part(cells, l, c0, n, hi + 1, lo).contains(j) by {
        let c = choose|c: int| 0 <= c < l * l && ring_of(l, c0, c) == n && #[trigger] cells[c].contains(j);
        lemma_ring_offsets(l, c0, c, n);
        assert(walked_before(l, c0, c, hi + 1, lo));
    }
    assert(ring_part(cells, l, c0, n, hi + 1, lo) =~= ring_members(cells, l, c0, n));
}

proof fn lemma_ring_part_column(cells: Seq<Set<usize>>, l: nat, c0: int, n: nat, lo: int, hi: int, dx: int)
    requires
        0 <= c0 < l * l,
        lo == -(if n <= (l - 1) / 2 { n as int } else { (l - 1) / 2 }),
        hi == (if n <= l / 2 { n as int } else { (l / 2) as int }),
    ensures
        ring_part(cells, l, c0, n, dx, hi + 1) == ring_part(cells, l, c0, n, dx + 1, lo),
{
    let a = ring_part(cells, l, c0, n, dx, hi + 1);
    let b = ring_part(cells, l, c0, n, dx + 1, lo);
    assert forall|j: usize| a.contains(j) <==> b.contains(j) by {
        if a.contains(j) {
            let c = choose|c: int|
                0 <= c < l * l && ring_of(l, c0, c) == n && walked_before(l, c0, c, dx, hi + 1) && #[trigger] cells[c].contains(j);
            lemma_ring_offsets(l, c0, c, n);
            assert(walked_before(l, c0, c, dx + 1, lo));
        }
        if b.contains(j) {
            let c = choose|c: int|
                0 <= c < l * l && ring_of(l, c0, c) == n && walked_before(l, c0, c, dx + 1, lo) && #[trigger] cells[c].contains(j);
            lemma_ring_offsets(l, c0, c, n);
            assert(walked_before(l, c0, c, dx, hi + 1));
        }
    }
    assert(a =~= b);
}

proof fn lemma_ring_part_skip(cells: Seq<Set<usize>>, l: nat, x0: int, y0: int, n: nat, dx: int, dy: int)
    requires
        0 <= x0 < l,
        0 <= y0 < l,
        -((l - 1) / 2) <= dx <= l / 2,
        -((l - 1) / 2) <= dy <= l / 2,
        (if abs(dx) >= abs(dy) { abs(dx) } else { abs(dy) }) != n,
    ensures
        ring_part(cells, l, x0 * l + y0, n, dx, dy + 1) == ring_part(cells, l, x0 * l + y0, n, dx, dy),
{
    let c0 = x0 * l + y0;
    lemma_cell_at(l, x0, y0, dx, dy);
    let a = ring_part(cells, l, c0, n, dx, dy + 1);
    let b = ring_part(cells, l, c0, n, dx, dy);
    assert forall|j: usize| a.contains(j) implies b.contains(j) by {
        let c = choose|c: int|
            0 <= c < l * l && ring_of(l, c0, c) == n && walked_before(l, c0, c, dx, dy + 1) && #[trigger] cells[c].contains(j);
        assert(walked_before(l, c0, c, dx, dy));
    }
    assert forall|j: usize| b.contains(j) implies a.contains(j) by {
        let c = choose|c: int|
            0 <= c < l * l && ring_of(l, c0, c) == n && walked_before(l, c0, c, dx, dy) && #[trigger] cells[c].contains(j);
        assert(walked_before(l, c0, c, dx, dy + 1));
    }
    assert(a =~= b);
}

proof fn lemma_ring_part_take(cells: Seq<Set<usize>>, l: nat, x0: int, y0: int, n: nat, dx: int, dy: int)
    requires
        0 <= x0 < l,
        0 <= y0 < l,
        cells.len() == l * l,
        -((l - 1) / 2) <= dx <= l / 2,
        -((l - 1) / 2) <= dy <= l / 2,
        (if abs(dx) >= abs(dy) { abs(dx) } else { abs(dy) }) == n,
    ensures
        ({
            let li = l as int;
            let c0 = x0 * l + y0;
            let c = ((x0 + dx) % li) * l + (y0 + dy) % li;
            &&& ring_part(cells, l, c0, n, dx, dy + 1) == ring_part(cells, l, c0, n, dx, dy).union(cells[c])
            &&& disjoint_cells(cells) ==> forall|j: usize|
                ring_part(cells, l, c0, n, dx, dy).contains(j) ==> !(#[trigger] cells[c].contains(j))
        }),
{
    let li = l as int;
    let c0 = x0 * l + y0;
    let c = ((x0 + dx) % li) * l + (y0 + dy) % li;
    lemma_cell_at(l, x0, y0, dx, dy);
    let a = ring_part(cells, l, c0, n, dx, dy + 1);
    let b = ring_part(cells, l, c0, n, dx, dy);
    assert forall|j: usize| a.contains(j) implies b.union(cells[c]).contains(j) by {
        let c2 = choose|c2: int|
            0 <= c2 < l * l && ring_of(l, c0, c2) == n && walked_before(l, c0, c2, dx, dy + 1) && #[trigger] cells[c2].contains(j);
        if !walked_before(l, c0, c2, dx, dy) {
            assert(c2 == c);
        }
    }
    assert forall|j: usize| b.union(cells[c]).contains(j) implies a.contains(j) by {
        if b.contains(j) {
            let c2 = choose|c2: int|
                0 <= c2 < l * l && ring_of(l, c0, c2) == n && walked_before(l, c0, c2, dx, dy) && #[trigger] cells[c2].contains(j);
            assert(walked_before(l, c0, c2, dx, dy + 1));
        } else {
            assert(walked_before(l, c0, c, dx, dy + 1));
        }
    }
    assert(a =~= b.union(cells[c]));
    if disjoint_cells(cells) {
        assert forall|j: usize| b.contains(j) implies !(#[trigger] cells[c].contains(j)) by {
            let c2 = choose|c2: int|
                0 <= c2 < l * l && ring_of(l, c0, c2) == n && walked_before(l, c0, c2, dx, dy) && #[trigger] cells[c2].contains(j);
            if cells[c].contains(j) {
                assert(c2 == c);
            }
        }
    }
}

/// A uniform `l` by `l` grid over the torus; each cell holds the indices of
/// the birds inside it.
pub struct CellList {
    l: usize,
    list: Vec<HashSet<usize>>,
}

impl View for CellList {
    type V = Seq<Set<usize>>;

    closed spec fn view(&self) -> Seq<Set<usize>> {
        self.list@.map_values(|s: HashSet<usize>| s@)
    }
}

/// `n` empty cells.
fn empty_cells(n: usize) -> (v: Vec<HashSet<usize>>)
    ensures
        v@.len() == n,
        forall|c: int| 0 <= c < n ==> (#[trigger] v@[c])@ == Set::<usize>::empty(),
{
    let mut v: Vec<HashSet<usize>> = Vec::new();
    let mut i: usize = 0;
    while i < n
        invariant
            i <= n,
            v@.len() == i,
            forall|c: int| 0 <= c < i ==> (#[trigger] v@[c])@ == Set::<usize>::empty(),
        decreases n - i,
    {
        v.push(HashSet::new());
        i = i + 1;
    }
    v
}

impl CellList {
    /// Side of the grid.
    pub closed spec fn side(&self) -> nat {
        self.l as nat
    }

    pub open spec fn wf(&self) -> bool {
        &&& self.side() > 0
        &&& self.side() * self.side() <= usize::MAX
        &&& self@.len() == self.side() * self.side()
    }

    /// An `l` by `l` grid of empty cells.
    pub fn new(l: usize) -> (cl: CellList)
        requires
            l > 0,
            l * l <= usize::MAX,
        ensures
            cl.wf(),
            cl.side() == l,
            forall|c: int| 0 <= c < l * l ==> (#[trigger] cl@[c]) == Set::<usize>::empty(),
    {
        let list = empty_cells(l * l);
        let cl = CellList { l, list };
        assert(cl@.len() == l * l);
        cl
    }

    /// Side of the grid.
    pub fn l(&self) -> (l: usize)
        ensures
            l == self.side(),
    {
        self.l
    }

    /// Empties every cell.
    pub fn clear(&mut self)
        requires
            old(self).wf(),
        ensures
            final(self).wf(),
            final(self).side() == old(self).side(),
            forall|c: int| 0 <= c < final(self)@.len() ==> (#[trigger] final(self)@[c]) == Set::<usize>::empty(),
    {
        self.list = empty_cells(self.l * self.l);
    }

    /// Index of the cell that holds position `r`.
    fn cell_index(&self, r: [u32; 2]) -> (c: usize)
        requires
            self.wf(),
        ensures
            c == cell_of(r, self.side()),
            c < self.side() * self.side(),
    {
        let (x, y) = self.coords(r);
        proof {
            lemma_cell_split(self.l as nat, x as int, y as int);
        }
        x * self.l + y
    }

    /// Column and row of the cell that holds position `r`.
    fn coords(&self, r: [u32; 2]) -> (xy: (usize, usize))
        requires
            self.wf(),
        ensures
            xy.0 == cell_coord(r[0], self.side()),
            xy.1 == cell_coord(r[1], self.side()),
            xy.0 < self.side(),
            xy.1 < self.side(),
    {
        let l = self.l;
        assert(l < 0x1_0000_0000) by (nonlinear_arith)
            requires
                l * l <= usize::MAX,
                usize::MAX <= u64::MAX,
        ;
        (axis_cell(r[0], l), axis_cell(r[1], l))
    }

    /// The indices held by the cells of ring `n` around the cell of
    /// position `r`: the cells whose periodic Chebyshev distance from it is
    /// exactly `n`. Ring 0 is the cell itself. The order is unspecified.
    pub fn adjacent_level(&self, r: [u32; 2], n: usize) -> (out: Vec<usize>)
        requires
            self.wf(),
        ensures
            out@.to_set() == ring_members(self@, self.side(), cell_of(r, self.side()) as int, n as nat),
            disjoint_cells(self@) ==> out@.no_duplicates(),
    {
        let l = self.l;
        let (x0, y0) = self.coords(r);
        let ghost c0: int = x0 * l + y0;
        let ghost cells = self@;
        assert(l < 0x1_0000_0000) by (nonlinear_arith)
            requires
                l * l <= usize::MAX,
                usize::MAX <= u64::MAX,
        ;
        let lo_mag: usize = if n <= (l - 1) / 2 { n } else { (l - 1) / 2 };
        let hi_mag: usize = if n <= l / 2 { n } else { l / 2 };
        let lo: i64 = -(lo_mag as i64);
        let hi: i64 = hi_mag as i64;
        let li: i64 = l as i64;
        let mut out: Vec<usize> = Vec::new();
        proof {
            lemma_cell_split(l as nat, x0 as int, y0 as int);
            lemma_ring_part_start(cells, l as nat, c0, n as nat, lo as int);
            assert(out@.to_set() =~= Set::<usize>::empty());
        }
        let mut dx: i64 = lo;
        while dx <= hi
            invariant
                self.wf(),
                cells == self@,
                l == self.side(),
                li == l,
                l < 0x1_0000_0000,
                x0 < l,
                y0 < l,
                c0 == x0 * l + y0,
                0 <= c0 < l * l,
                lo == -(if n <= (l - 1) / 2 { n as int } else { (l - 1) / 2 }),
                hi == (if n <= l / 2 { n as int } else { (l / 2) as int }),
                lo <= dx <= hi + 1,
                out@.to_set() == ring_part(cells, l as nat, c0, n as nat, dx as int, lo as int),
                disjoint_cells(cells) ==> out@.no_duplicates(),
            decreases hi + 1 - dx,
        {
            let mut dy: i64 = lo;
            while dy <= hi
                invariant
                    self.wf(),
                    cells == self@,
                    l == self.side(),
                    li == l,
                    l < 0x1_0000_0000,
                    x0 < l,
                    y0 < l,
                    c0 == x0 * l + y0,
                0 <= c0 < l * l,
                    lo == -(if n <= (l - 1) / 2 { n as int } else { (l - 1) / 2 }),
                    hi == (if n <= l / 2 { n as int } else { (l / 2) as int }),
                    lo <= dx <= hi,
                    lo <= dy <= hi + 1,
                    out@.to_set() == ring_part(cells, l as nat, c0, n as nat, dx as int, dy as int),
                    disjoint_cells(cells) ==> out@.no_duplicates(),
                decreases hi + 1 - dy,
            {
                let ax: i64 = if dx >= 0 { dx } else { -dx };
                let ay: i64 = if dy >= 0 { dy } else { -dy };
                let m: i64 = if ax >= ay { ax } else { ay };
                if m as usize == n {
                    let x: i64 = (x0 as i64 + li + dx) % li;
                    let y: i64 = (y0 as i64 + li + dy) % li;
                    proof {
                        lemma_ring_part_take(cells, l as nat, x0 as int, y0 as int, n as nat, dx as int, dy as int);
                        vstd::arithmetic::div_mod::lemma_mod_multiples_vanish(1, x0 + dx, li as int);
                        vstd::arithmetic::div_mod::lemma_mod_multiples_vanish(1, y0 + dy, li as int);
                        lemma_cell_split(l as nat, x as int, y as int);
                    }
                    let c: usize = x as usize * l + y as usize;
                    let ghost before = out@;
                    push_members(&self.list[c], &mut out);
                    proof {
                        let added = out@.skip(before.len() as int);
                        assert(out@ =~= before + added);
                        vstd::seq_lib::seq_to_set_distributes_over_add(before, added);
                        assert(self.list@[c as int]@ == cells[c as int]);
                        if disjoint_cells(cells) {
                            assert forall|i: int, k: int| 0 <= i < before.len() && 0 <= k < added.len() implies before[i] != added[k] by {
                                assert(before.to_set().contains(before[i]));
                                assert(added.to_set().contains(added[k]));
                            }
                            vstd::seq_lib::lemma_no_dup_in_concat(before, added);
                        }
                        assert(out@.to_set() =~= ring_part(cells, l as nat, c0, n as nat, dx as int, dy + 1));
                    }
                } else {
                    proof {
                        lemma_ring_part_skip(cells, l as nat, x0 as int, y0 as int, n as nat, dx as int, dy as int);
                    }
                }
                dy = dy + 1;
            }
            proof {
                lemma_ring_part_column(cells, l as nat, c0, n as nat, lo as int, hi as int, dx as int);
            }
            dx = dx + 1;
        }
        proof {
            lemma_ring_part_end(cells, l as nat, c0, n as nat, lo as int, hi as int);
            lemma_cell_split(l as nat, x0 as int, y0 as int);
        }
        out
    }

    /// Puts `idx` into the cell that holds position `r`; nothing changes if it is already there.
    pub fn add(&mut self, r: [u32; 2], idx: usize)
        requires
            old(self).wf(),
        ensures
            final(self).wf(),
            final(self).side() == old(self).side(),
            final(self)@ == old(self)@.update(
                cell_of(r, old(self).side()) as int,
                old(self)@[cell_of(r, old(self).side()) as int].insert(idx),
            ),
    {
        let c = self.cell_index(r);
        self.list[c].insert(idx);
        assert(self@ =~= old(self)@.update(c as int, old(self)@[c as int].insert(idx)));
    }

    /// Takes `idx` out of the cell that holds position `r`.
    pub fn remove(&mut self, r: [u32; 2], idx: usize)
        requires
            old(self).wf(),
        ensures
            final(self).wf(),
            final(self).side() == old(self).side(),
            final(self)@ == old(self)@.update(
                cell_of(r, old(self).side()) as int,
                old(self)@[cell_of(r, old(self).side()) as int].remove(idx),
            ),
    {
        let c = self.cell_index(r);
        self.list[c].remove(&idx);
        assert(self@ =~= old(self)@.update(c as int, old(self)@[c as int].remove(idx)));
    }

    /// The smallest ring index that reaches every point within distance
    /// `radius` of a position: `ceil(radius * l) + 1`, in grid units.
    pub fn distance_to_level(&self, radius: u32) -> (n: usize)
        requires
            self.wf(),
        ensures
            n == ((radius as nat) * self.side() + TORUS - 1) / (TORUS as int) + 1,
    {
        let l = self.l;
        assert(l < 0x1_0000_0000) by (nonlinear_arith)
            requires
                l * l <= usize::MAX,
                usize::MAX <= u64::MAX,
        ;
        assert((radius as nat) * l + TORUS - 1 < 0x1_0000_0000 * 0x1_0000_0000) by (nonlinear_arith)
            requires
                l < 0x1_0000_0000,
                radius < 0x1_0000_0000,
        ;
        let q: u128 = ((radius as u128) * (l as u128) + (TORUS as u128) - 1) / (TORUS as u128);
        assert(q <= l) by (nonlinear_arith)
            requires
                q == ((radius as nat) * l + TORUS - 1) / (TORUS as int),
                radius < TORUS,
                TORUS == 0x1_0000_0000,
        ;
        assert(l < usize::MAX) by (nonlinear_arith)
            requires
                l * l <= usize::MAX,
                l > 0,
                usize::MAX >= 0xffff_ffff,
        ;
        q as usize + 1
    }

}

/// Column (or row) of coordinate `p` on a grid of side `l`.
fn axis_cell(p: u32, l: usize) -> (x: usize)
    requires
        0 < l < 0x1_0000_0000,
    ensures
        x == cell_coord(p, l as nat),
        x < l,
{
    assert((p as nat) * l < 0x1_0000_0000 * 0x1_0000_0000) by (nonlinear_arith)
        requires
            l < 0x1_0000_0000,
            p < 0x1_0000_0000,
    ;
    let x: u64 = ((p as u64) * (l as u64)) / TORUS;
    assert(x < l) by (nonlinear_arith)
        requires
            x == ((p as nat) * l) / (TORUS as int),
            p < TORUS,
            TORUS == 0x1_0000_0000,
            l > 0,
    ;
    x as usize
}

/// Appends the members of `set` to `out`, each once, in the set's own order.
fn push_members(set: &HashSet<usize>, out: &mut Vec<usize>)
    ensures
        final(out)@.len() >= old(out)@.len(),
        final(out)@.take(old(out)@.len() as int) == old(out)@,
        final(out)@.skip(old(out)@.len() as int).to_set() == set@,
        final(out)@.skip(old(out)@.len() as int).no_duplicates(),
{
    let ghost start = out@;
    for j in it: set.iter()
        invariant
            out@ == start + it.seq().take(it.index()).unref(),
            it.seq().unref().to_set() == set@,
            it.seq().unref().no_duplicates(),
            it.index() == it.seq().len() ==> out@.skip(start.len() as int) == it.seq().unref(),
    {
        out.push(*j);
        assert(out@.skip(start.len() as int) =~= it.seq().take(it.index() + 1).unref());
    }
    assert(out@.take(start.len() as int) =~= start);
}

} // verus!
