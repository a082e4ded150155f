//! Sorting bird indices, and sequences of strictly increasing indices.
use itertools::Itertools;
use vstd::prelude::*;

verus! {

broadcast use vstd::seq_lib::group_to_multiset_ensures;

/// `s` is sorted, in ascending order.
pub open spec fn ascending(s: Seq<usize>) -> bool {
    forall|a: int, b: int| 0 <= a < b < s.len() ==> s[a] <= s[b]
}

/// `s` is strictly increasing.
pub open spec fn increasing(s: Seq<usize>) -> bool {
    forall|a: int, b: int| 0 <= a < b < s.len() ==> s[a] < s[b]
}

/// The indices `0, 1, ..., n - 1`, in order.
pub open spec fn indices(n: nat) -> Seq<usize> {
    Seq::new(n, |j: int| j as usize)
}

/// Relies on `itertools::Itertools::sorted`: the same items, in ascending order.
#[verifier::external_body]
fn sorted_indices(v: Vec<usize>) -> (r: Vec<usize>)
    ensures
        r@.to_multiset() == v@.to_multiset(),
        ascending(r@),
{
    v.into_iter().sorted().collect()
}

/// The indices of `v` in increasing order; `v` holds each at most once.
pub fn sort_unique(v: Vec<usize>) -> (r: Vec<usize>)
    requires
        v@.no_duplicates(),
    ensures
        r@.to_set() == v@.to_set(),
        increasing(r@),
{
    let ghost w = v@;
    let r = sorted_indices(v);
    proof {
        w.lemma_multiset_has_no_duplicates();
        r@.lemma_multiset_has_no_duplicates_conv();
        assert forall|a: int, b: int| 0 <= a < b < r@.len() implies r@[a] < r@[b] by {
            assert(r@[a] <= r@[b]);
        }
        assert forall|x: usize| r@.to_set().contains(x) <==> w.to_set().contains(x) by {
            assert(r@.to_multiset().contains(x) <==> r@.contains(x));
            assert(w.to_multiset().contains(x) <==> w.contains(x));
        }
        assert(r@.to_set() =~= w.to_set());
    }
    r
}

/// The items of `v` other than `x`.
pub fn without(v: &Vec<usize>, x: usize) -> (r: Vec<usize>)
    requires
        v@.no_duplicates(),
    ensures
        r@.to_set() == v@.to_set().remove(x),
        r@.no_duplicates(),
{
    let mut r: Vec<usize> = Vec::new();
    let mut t: usize = 0;
    while t < v.len()
        invariant
            t <= v@.len(),
            v@.no_duplicates(),
            r@.no_duplicates(),
            forall|y: usize| #[trigger] r@.contains(y) <==> (v@.take(t as int).contains(y) && y != x),
        decreases v@.len() - t,
    {
        let y = v[t];
        let ghost old_r = r@;
        let ghost tk0 = v@.take(t as int);
        assert(v@.take(t + 1) =~= tk0.push(y));
        if y != x {
            assert(!r@.contains(y)) by {
                if tk0.contains(y) {
                    let w = choose|w: int| 0 <= w < tk0.len() && tk0[w] == y;
                    assert(v@[w] == v@[t as int]);
                }
            }
            r.push(y);
        }
        t = t + 1;
        proof {
            let tk = v@.take(t as int);
            assert(tk =~= tk0.push(y));
            assert forall|z: usize| #[trigger] r@.contains(z) <==> (tk.contains(z) && z != x) by {
                if tk.contains(z) {
                    let w = choose|w: int| 0 <= w < tk.len() && tk[w] == z;
                    if w < tk0.len() {
                        assert(tk0[w] == z);
                    }
                }
                if tk0.contains(z) {
                    let w = choose|w: int| 0 <= w < tk0.len() && tk0[w] == z;
                    assert(tk[w] == z);
                }
                if z == y {
                    assert(tk[tk0.len() as int] == z);
                }
                if y != x {
                    assert(r@ == old_r.push(y));
                    if r@.contains(z) {
                        let w = choose|w: int| 0 <= w < r@.len() && r@[w] == z;
                        if w < old_r.len() {
                            assert(old_r[w] == z);
                        }
                    }
                    if old_r.contains(z) {
                        let w = choose|w: int| 0 <= w < old_r.len() && old_r[w] == z;
                        assert(r@[w] == z);
                    }
                    if z == y {
                        assert(r@[old_r.len() as int] == z);
                    }
                } else {
                    assert(r@ == old_r);
                }
            }
        }
    }
    assert(v@.take(t as int) =~= v@);
    assert(r@.to_set() =~= v@.to_set().remove(x));
    r
}

/// Two strictly increasing sequences with the same members are equal.
pub proof fn lemma_increasing_unique(a: Seq<usize>, b: Seq<usize>)
    requires
        increasing(a),
        increasing(b),
        a.to_set() == b.to_set(),
    ensures
        a == b,
    decreases a.len() + b.len(),
{
    if a.len() == 0 || b.len() == 0 {
        if a.len() > 0 {
            assert(a.to_set().contains(a[0]));
        }
        if b.len() > 0 {
            assert(b.to_set().contains(b[0]));
        }
        assert(a =~= b);
    } else {
        let x = a.last();
        let y = b.last();
        assert(a.to_set().contains(x));
        assert(b.to_set().contains(y));
        assert(b.contains(x));
        assert(a.contains(y));
        assert(x == y) by {
            let i = choose|i: int| 0 <= i < b.len() && b[i] == x;
            let k = choose|k: int| 0 <= k < a.len() && a[k] == y;
            assert(x <= y);
            assert(y <= x);
        }
        let a2 = a.drop_last();
        let b2 = b.drop_last();
        assert forall|z: usize| a2.to_set().contains(z) <==> b2.to_set().contains(z) by {
            if a2.to_set().contains(z) {
                let i = choose|i: int| 0 <= i < a2.len() && a2[i] == z;
                assert(a.contains(z));
                assert(z < x);
                assert(a.to_set().contains(z));
                assert(b.to_set().contains(z));
                assert(b.contains(z));
                let k = choose|k: int| 0 <= k < b.len() && b[k] == z;
                assert(k < b.len() - 1);
                assert(b2[k] == z);
            }
            if b2.to_set().contains(z) {
                let i = choose|i: int| 0 <= i < b2.len() && b2[i] == z;
                assert(b.contains(z));
                assert(z < y);
                assert(b.to_set().contains(z));
                assert(a.to_set().contains(z));
                assert(a.contains(z));
                let k = choose|k: int| 0 <= k < a.len() && a[k] == z;
                assert(k < a.len() - 1);
                assert(a2[k] == z);
            }
        }
        assert(a2.to_set() =~= b2.to_set());
        lemma_increasing_unique(a2, b2);
        assert(a =~= a2.push(x));
        assert(b =~= b2.push(y));
    }
}

/// The indices below `n` that satisfy `p`, in increasing order, are the only
/// strictly increasing sequence with exactly those members.
pub proof fn lemma_filter_indices(n: nat, p: spec_fn(usize) -> bool)
    requires
        n <= usize::MAX + 1,
    ensures
        increasing(indices(n).filter(p)),
        forall|j: usize| #[trigger] indices(n).filter(p).contains(j) <==> (j < n && p(j)),
        indices(n).filter(p).no_duplicates(),
    decreases n,
{
    let s = indices(n).filter(p);
    if n == 0 {
        assert(indices(0).filter(p) =~= Seq::<usize>::empty()) by {
            reveal_with_fuel(Seq::filter, 1);
        }
    } else {
        let m = (n - 1) as nat;
        lemma_filter_indices(m, p);
        assert(indices(n) =~= indices(m).push(m as usize));
        indices(m).lemma_filter_push(m as usize, p);
        let t = indices(m).filter(p);
        assert forall|j: usize| #[trigger] s.contains(j) <==> (j < n && p(j)) by {
            if s.contains(j) {
                if !t.contains(j) {
                    let i = choose|i: int| 0 <= i < s.len() && s[i] == j;
                    if p(m as usize) {
                        assert(i == s.len() - 1 || t[i] == j);
                    }
                }
            }
            if j < n && p(j) {
                if j < m {
                    assert(t.contains(j));
                    let i = choose|i: int| 0 <= i < t.len() && t[i] == j;
                    assert(s[i] == j);
                } else {
                    assert(s[s.len() - 1] == j);
                }
            }
        }
        assert forall|a: int, b: int| 0 <= a < b < s.len() implies s[a] < s[b] by {
            if p(m as usize) && b == s.len() - 1 {
                assert(t.contains(s[a]));
            }
        }
    }
}

} // verus!
