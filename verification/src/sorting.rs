//! Sorting by a total preorder.

use vstd::prelude::*;
use vstd::slice::slice_subrange;

verus! {

/// Values that a total preorder arranges.
pub trait Sortable: Copy {
    /// `self` may stand before `other`.
    spec fn le(self, other: Self) -> bool;

    proof fn le_total(a: Self, b: Self)
        ensures
            a.le(b) || b.le(a),
    ;

    proof fn le_transitive(a: Self, b: Self, c: Self)
        requires
            a.le(b),
            b.le(c),
        ensures
            a.le(c),
    ;

    fn at_most(&self, other: &Self) -> (r: bool)
        ensures
            r == self.le(*other),
    ;
}

/// Every value may stand before those behind it.
pub open spec fn sorted<T: Sortable>(s: Seq<T>) -> bool {
    forall|i: int, j: int| 0 <= i <= j < s.len() ==> #[trigger] s[i].le(#[trigger] s[j])
}

/// `s` holds what `t` holds, in order.
pub open spec fn sorting_of<T: Sortable>(s: Seq<T>, t: Seq<T>) -> bool {
    &&& sorted(s)
    &&& s.to_multiset() == t.to_multiset()
}

/// Merges two sorted lists into one.
fn merge<T: Sortable>(a: &Vec<T>, b: &Vec<T>) -> (r: Vec<T>)
    requires
        sorted(a@),
        sorted(b@),
        a@.len() + b@.len() <= usize::MAX,
    ensures
        sorting_of(r@, a@ + b@),
{
    let mut r: Vec<T> = Vec::with_capacity(a.len() + b.len());
    let mut i: usize = 0;
    let mut j: usize = 0;
    proof {
        assert(a@.take(0) + b@.take(0) =~= r@);
    }
    while i < a.len() || j < b.len()
        invariant
            i <= a@.len(),
            j <= b@.len(),
            sorted(a@),
            sorted(b@),
            sorted(r@),
            r@.to_multiset() == (a@.take(i as int) + b@.take(j as int)).to_multiset(),
            forall|k: int, m: int|
                0 <= k < r@.len() && i <= m < a@.len() ==> #[trigger] r@[k].le(#[trigger] a@[m]),
            forall|k: int, m: int|
                0 <= k < r@.len() && j <= m < b@.len() ==> #[trigger] r@[k].le(#[trigger] b@[m]),
        decreases a@.len() - i + b@.len() - j,
    {
        let left: bool = if i >= a.len() {
            false
        } else if j >= b.len() {
            true
        } else {
            a[i].at_most(&b[j])
        };
        let ghost before = r@;
        if left {
            proof {
                lemma_merge_step(a@, b@, i as int, j as int, true);
                assert forall|m: int| j <= m < b@.len() implies a@[i as int].le(#[trigger] b@[m]) by {
                    T::le_transitive(a@[i as int], b@[j as int], b@[m]);
                }
            }
            r.push(a[i]);
            i += 1;
        } else {
            proof {
                lemma_merge_step(a@, b@, i as int, j as int, false);
                assert forall|m: int| i <= m < a@.len() implies b@[j as int].le(#[trigger] a@[m]) by {
                    T::le_total(a@[i as int], b@[j as int]);
                    T::le_transitive(b@[j as int], a@[i as int], a@[m]);
                }
            }
            r.push(b[j]);
            j += 1;
        }
        proof {
            vstd::seq_lib::to_multiset_build(before, r@.last());
            assert forall|k: int, m: int| 0 <= k <= m < r@.len() implies #[trigger] r@[k].le(
                #[trigger] r@[m],
            ) by {
                if k == r@.len() - 1 {
                    T::le_total(r@[k], r@[k]);
                }
            }
        }
    }
    proof {
        assert(a@.take(i as int) + b@.take(j as int) =~= a@ + b@);
    }
    r
}

/// What the next value taken from either list adds to those already taken.
proof fn lemma_merge_step<T>(a: Seq<T>, b: Seq<T>, i: int, j: int, left: bool)
    requires
        0 <= i <= a.len(),
        0 <= j <= b.len(),
        left ==> i < a.len(),
        !left ==> j < b.len(),
    ensures
        left ==> (a.take(i + 1) + b.take(j)).to_multiset() == (a.take(i) + b.take(j)).to_multiset().insert(
            a[i],
        ),
        !left ==> (a.take(i) + b.take(j + 1)).to_multiset() == (a.take(i) + b.take(j)).to_multiset().insert(
            b[j],
        ),
{
    let taken = a.take(i) + b.take(j);
    if left {
        assert(a.take(i + 1) + b.take(j) =~= taken.insert(i, a[i]));
        vstd::seq_lib::to_multiset_insert(taken, i, a[i]);
    } else {
        assert(a.take(i) + b.take(j + 1) =~= taken.push(b[j]));
        vstd::seq_lib::to_multiset_build(taken, b[j]);
    }
}

/// The values of `v` from `lo` up to `hi`, sorted.
fn sort_range<T: Sortable>(v: &[T], lo: usize, hi: usize) -> (r: Vec<T>)
    requires
        lo <= hi <= v@.len(),
    ensures
        sorting_of(r@, v@.subrange(lo as int, hi as int)),
        r@.len() == hi - lo,
    decreases hi - lo,
{
    if hi - lo <= 1 {
        let mut r: Vec<T> = Vec::new();
        if lo < hi {
            r.push(v[lo]);
            proof {
                T::le_total(v@[lo as int], v@[lo as int]);
            }
        }
        proof {
            assert(r@ =~= v@.subrange(lo as int, hi as int));
        }
        r
    } else {
        let mid: usize = lo + (hi - lo) / 2;
        let a = sort_range(v, lo, mid);
        let b = sort_range(v, mid, hi);
        let r = merge(&a, &b);
        proof {
            let left = v@.subrange(lo as int, mid as int);
            let right = v@.subrange(mid as int, hi as int);
            vstd::seq_lib::lemma_multiset_commutative(a@, b@);
            vstd::seq_lib::lemma_multiset_commutative(left, right);
            assert(left + right =~= v@.subrange(lo as int, hi as int));
            vstd::seq_lib::to_multiset_len(r@);
            vstd::seq_lib::to_multiset_len(v@.subrange(lo as int, hi as int));
        }
        r
    }
}

/// The values of `v`, sorted.
pub fn sort<T: Sortable>(v: &[T]) -> (r: Vec<T>)
    ensures
        sorting_of(r@, v@),
        r@.len() == v@.len(),
{
    proof {
        assert(v@.subrange(0, v@.len() as int) =~= v@);
    }
    sort_range(v, 0, v.len())
}

/// Sorts the first `n` places of `e`.
pub fn sort_prefix<T: Sortable, const N: usize>(e: &mut [T; N], n: usize)
    requires
        n <= N,
    ensures
        sorting_of(final(e)@.take(n as int), old(e)@.take(n as int)),
        forall|i: int| n <= i < N ==> final(e)@[i] == old(e)@[i],
{
    let v = sort(slice_subrange(e.as_slice(), 0, n));
    let mut i: usize = 0;
    proof {
        assert(e@.subrange(0, n as int) =~= old(e)@.take(n as int));
    }
    while i < n
        invariant
            i <= n <= N,
            v@.len() == n,
            e@.take(i as int) == v@.take(i as int),
            forall|k: int| n <= k < N ==> e@[k] == old(e)@[k],
        decreases n - i,
    {
        let ghost prior = e@;
        e[i] = v[i];
        i += 1;
        proof {
            assert(e@.take(i as int) =~= prior.take(i - 1).push(v@[i - 1]));
            assert(v@.take(i as int) =~= v@.take(i - 1).push(v@[i - 1]));
        }
    }
    proof {
        assert(v@.take(n as int) =~= v@);
    }
}

/// What holds of every value before holds of every value after.
pub proof fn lemma_rearranged_all<A>(s: Seq<A>, t: Seq<A>, p: spec_fn(A) -> bool)
    requires
        s.to_multiset() == t.to_multiset(),
        forall|i: int| 0 <= i < t.len() ==> p(#[trigger] t[i]),
    ensures
        forall|i: int| 0 <= i < s.len() ==> p(#[trigger] s[i]),
{
    assert forall|i: int| 0 <= i < s.len() implies p(#[trigger] s[i]) by {
        assert(s.contains(s[i]));
        vstd::seq_lib::to_multiset_contains(s, s[i]);
        vstd::seq_lib::to_multiset_contains(t, s[i]);
        assert(p(t[t.index_of(s[i])]));
    }
}

/// A rearrangement stays one when every value is mapped.
pub proof fn lemma_map_rearranged<A, B>(s: Seq<A>, t: Seq<A>, f: spec_fn(A) -> B)
    requires
        s.to_multiset() == t.to_multiset(),
    ensures
        s.map_values(f).to_multiset() == t.map_values(f).to_multiset(),
    decreases s.len(),
{
    vstd::seq_lib::to_multiset_len(s);
    vstd::seq_lib::to_multiset_len(t);
    if s.len() == 0 {
        assert(s.map_values(f) =~= t.map_values(f));
    } else {
        let x = s.last();
        let n = s.len() - 1;
        vstd::seq_lib::to_multiset_contains(s, x);
        vstd::seq_lib::to_multiset_contains(t, x);
        assert(s[n] == x);
        let j = t.index_of(x);
        let s1 = s.drop_last();
        let t1 = t.remove(j);
        assert(s1 =~= s.remove(n));
        vstd::seq_lib::to_multiset_remove(s, n);
        vstd::seq_lib::to_multiset_remove(t, j);
        lemma_map_rearranged(s1, t1, f);
        assert(s.map_values(f) =~= s1.map_values(f).push(f(x)));
        assert(t.map_values(f) =~= t1.map_values(f).insert(j, f(x)));
        vstd::seq_lib::to_multiset_build(s1.map_values(f), f(x));
        vstd::seq_lib::to_multiset_insert(t1.map_values(f), j, f(x));
    }
}

impl Sortable for i32 {
    open spec fn le(self, other: i32) -> bool {
        self <= other
    }

    proof fn le_total(a: i32, b: i32) {
    }

    proof fn le_transitive(a: i32, b: i32, c: i32) {
    }

    fn at_most(&self, other: &i32) -> (r: bool) {
        *self <= *other
    }
}

} // verus!
