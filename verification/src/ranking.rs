//! Fixed-size rankings: the five largest by CPU time, memory or I/O, and the first blocked tasks.

use vstd::prelude::*;
use vstd::slice::slice_subrange;
use crate::sorting;
use crate::sorting::Sortable;
use crate::stats;
use crate::stats::COMM_LEN;

verus! {

/// Entries in a ranking.
pub const TOP_N: usize = 5;

/// Entries in the list of blocked tasks.
pub const MAX_BLOCKED: usize = 10;

// ---- What a ranking keeps ----

/// The first index at which `key` is least.
pub open spec fn first_min<T>(s: Seq<T>, key: spec_fn(T) -> int) -> int
    decreases s.len(),
{
    if s.len() <= 1 {
        0
    } else {
        let m = first_min(s.drop_last(), key);
        if key(s.last()) < key(s[m]) {
            s.len() - 1
        } else {
            m
        }
    }
}

/// `kept` after `e` was offered: it takes a free place, or that of the first least entry if it
/// is larger.
pub open spec fn offered<T>(kept: Seq<T>, key: spec_fn(T) -> int, e: T) -> Seq<T> {
    if kept.len() < TOP_N {
        kept.push(e)
    } else if key(e) > key(kept[first_min(kept, key)]) {
        kept.update(first_min(kept, key), e)
    } else {
        kept
    }
}

/// The place that `e` takes among `kept`; none where it is not kept.
pub open spec fn place_for<T>(kept: Seq<T>, key: spec_fn(T) -> int, e: T) -> Option<int> {
    if kept.len() < TOP_N {
        Some(kept.len() as int)
    } else if key(e) > key(kept[first_min(kept, key)]) {
        Some(first_min(kept, key))
    } else {
        None
    }
}

/// `kept` after every one of `offers` was offered in turn.
pub open spec fn ranking<T>(kept: Seq<T>, key: spec_fn(T) -> int, offers: Seq<T>) -> Seq<T>
    decreases offers.len(),
{
    if offers.len() == 0 {
        kept
    } else {
        offered(ranking(kept, key, offers.drop_last()), key, offers.last())
    }
}

/// How many of `s` reach the mark `t`.
pub open spec fn reaching<T>(s: Seq<T>, key: spec_fn(T) -> int, t: int) -> nat
    decreases s.len(),
{
    if s.len() == 0 {
        0
    } else if key(s.last()) >= t {
        reaching(s.drop_last(), key, t) + 1
    } else {
        reaching(s.drop_last(), key, t)
    }
}

pub open spec fn at_most_n(n: nat) -> nat {
    if n <= TOP_N {
        n
    } else {
        TOP_N as nat
    }
}

pub proof fn lemma_first_min<T>(s: Seq<T>, key: spec_fn(T) -> int)
    requires
        s.len() > 0,
    ensures
        0 <= first_min(s, key) < s.len(),
        forall|i: int| 0 <= i < s.len() ==> key(s[first_min(s, key)]) <= key(#[trigger] s[i]),
    decreases s.len(),
{
    if s.len() > 1 {
        let rest = s.drop_last();
        lemma_first_min(rest, key);
        assert forall|i: int| 0 <= i < s.len() implies key(s[first_min(s, key)]) <= key(#[trigger] s[i]) by {
            if i < s.len() - 1 {
                assert(rest[i] == s[i]);
            }
        }
    }
}

proof fn lemma_reaching_bound<T>(s: Seq<T>, key: spec_fn(T) -> int, t: int)
    ensures
        reaching(s, key, t) <= s.len(),
        (forall|i: int| 0 <= i < s.len() ==> key(#[trigger] s[i]) >= t) ==> reaching(s, key, t) == s.len(),
        forall|i: int| 0 <= i < s.len() && key(#[trigger] s[i]) < t ==> reaching(s, key, t) < s.len(),
    decreases s.len(),
{
    if s.len() > 0 {
        let rest = s.drop_last();
        lemma_reaching_bound(rest, key, t);
        assert(forall|i: int| 0 <= i < rest.len() ==> rest[i] == s[i]);
        if forall|i: int| 0 <= i < s.len() ==> key(#[trigger] s[i]) >= t {
            assert forall|i: int| 0 <= i < rest.len() implies key(#[trigger] rest[i]) >= t by {
                assert(key(s[i]) >= t);
            }
        }
        assert forall|i: int| 0 <= i < s.len() && key(#[trigger] s[i]) < t implies reaching(s, key, t) < s.len() by {
            if i < s.len() - 1 {
                assert(key(rest[i]) < t);
            }
        }
    }
}

proof fn lemma_reaching_update<T>(s: Seq<T>, key: spec_fn(T) -> int, t: int, i: int, e: T)
    requires
        0 <= i < s.len(),
    ensures
        reaching(s.update(i, e), key, t) + (if key(s[i]) >= t {
            1int
        } else {
            0
        }) == reaching(s, key, t) + (if key(e) >= t {
            1int
        } else {
            0
        }),
    decreases s.len(),
{
    let u = s.update(i, e);
    if i == s.len() - 1 {
        assert(u.drop_last() =~= s.drop_last());
    } else {
        lemma_reaching_update(s.drop_last(), key, t, i, e);
        assert(u.drop_last() =~= s.drop_last().update(i, e));
    }
}

proof fn lemma_ranking_len<T>(key: spec_fn(T) -> int, offers: Seq<T>)
    ensures
        ranking(Seq::empty(), key, offers).len() == at_most_n(offers.len()),
    decreases offers.len(),
{
    if offers.len() > 0 {
        let kept = ranking(Seq::empty(), key, offers.drop_last());
        lemma_ranking_len(key, offers.drop_last());
        if kept.len() > 0 {
            lemma_first_min(kept, key);
        }
    }
}

/// A ranking holds the largest of what it was offered: for every mark, as many of its entries
/// reach the mark as offers did, up to the size of the ranking.
pub proof fn ranking_keeps_the_largest<T>(key: spec_fn(T) -> int, offers: Seq<T>, t: int)
    ensures
        reaching(ranking(Seq::empty(), key, offers), key, t) == at_most_n(reaching(offers, key, t)),
        ranking(Seq::empty(), key, offers).len() == at_most_n(offers.len()),
    decreases offers.len(),
{
    lemma_ranking_len(key, offers);
    if offers.len() > 0 {
        let e = offers.last();
        let kept = ranking(Seq::empty(), key, offers.drop_last());
        lemma_ranking_len(key, offers.drop_last());
        ranking_keeps_the_largest(key, offers.drop_last(), t);
        lemma_reaching_bound(kept, key, t);
        if kept.len() < TOP_N {
            assert(kept.push(e).drop_last() =~= kept);
            lemma_reaching_bound(kept.push(e), key, t);
            lemma_reaching_bound(offers, key, t);
            lemma_reaching_bound(offers.drop_last(), key, t);
        } else {
            lemma_first_min(kept, key);
            let m = first_min(kept, key);
            lemma_reaching_update(kept, key, t, m, e);
            if t <= key(kept[m]) {
                assert(reaching(kept, key, t) == TOP_N);
            } else {
                assert(reaching(kept, key, t) < TOP_N);
            }
        }
    }
}

/// Every entry of a ranking was offered, and none is in it more often than it was offered.
pub proof fn ranking_holds_only_offers<T>(key: spec_fn(T) -> int, offers: Seq<T>)
    ensures
        ranking(Seq::empty(), key, offers).to_multiset().subset_of(offers.to_multiset()),
        forall|i: int|
            0 <= i < ranking(Seq::empty(), key, offers).len() ==> offers.contains(
                #[trigger] ranking(Seq::empty(), key, offers)[i],
            ),
    decreases offers.len(),
{
    let after = ranking(Seq::empty(), key, offers);
    if offers.len() > 0 {
        let e = offers.last();
        let rest = offers.drop_last();
        let kept = ranking(Seq::empty(), key, rest);
        ranking_holds_only_offers(key, rest);
        vstd::seq_lib::to_multiset_build(rest, e);
        assert(rest.push(e) =~= offers);
        lemma_ranking_len(key, rest);
        if kept.len() < TOP_N {
            vstd::seq_lib::to_multiset_build(kept, e);
        } else {
            lemma_first_min(kept, key);
            let m = first_min(kept, key);
            vstd::seq_lib::to_multiset_update(kept, m, e);
        }
        assert(after.to_multiset().subset_of(offers.to_multiset()));
    } else {
        assert(after =~= offers);
    }
    assert forall|i: int| 0 <= i < after.len() implies offers.contains(#[trigger] after[i]) by {
        assert(after.contains(after[i]));
        vstd::seq_lib::to_multiset_contains(after, after[i]);
        vstd::seq_lib::to_multiset_contains(offers, after[i]);
    }
}

/// `kept` are the five largest of `all`: all of them, in their order, where there are no more
/// than five, and else five such that none of those left out is larger than one of them.
pub open spec fn is_best_of<T>(kept: Seq<T>, all: Seq<T>, key: spec_fn(T) -> int) -> bool {
    if all.len() <= 5 {
        kept == all
    } else {
        &&& kept.len() == 5
        &&& exists|left: Seq<T>|
            {
                &&& #[trigger] (kept + left).to_multiset() == all.to_multiset()
                &&& forall|i: int, j: int|
                    0 <= i < left.len() && 0 <= j < 5 ==> key(#[trigger] left[i]) <= key(#[trigger] kept[j])
            }
    }
}

/// What a ranking keeps are the five largest of what it was offered.
pub proof fn a_ranking_is_the_best_of_its_offers<T>(key: spec_fn(T) -> int, offers: Seq<T>)
    ensures
        is_best_of(ranking(Seq::empty(), key, offers), offers, key),
    decreases offers.len(),
{
    let now = ranking(Seq::empty(), key, offers);
    lemma_ranking_len(key, offers);
    if offers.len() == 0 {
        assert(now =~= offers);
    } else {
        let rest = offers.drop_last();
        let e = offers.last();
        let kept = ranking(Seq::empty(), key, rest);
        a_ranking_is_the_best_of_its_offers(key, rest);
        lemma_ranking_len(key, rest);
        assert(rest.push(e) =~= offers);
        if offers.len() <= 5 {
            assert(now =~= offers);
        } else {
            vstd::seq_lib::to_multiset_build(rest, e);
            lemma_first_min(kept, key);
            let m = first_min(kept, key);
            let left = if rest.len() == 5 {
                Seq::empty()
            } else {
                choose|left: Seq<T>|
                    {
                        &&& #[trigger] (kept + left).to_multiset() == rest.to_multiset()
                        &&& forall|i: int, j: int|
                            0 <= i < left.len() && 0 <= j < 5 ==> key(#[trigger] left[i]) <= key(#[trigger] kept[j])
                    }
            };
            if rest.len() == 5 {
                assert(kept + left =~= rest);
            }
            if key(e) > key(kept[m]) {
                let more = left.push(kept[m]);
                lemma_swapped(kept, left, m, e);
                assert((now + more).to_multiset() == offers.to_multiset());
                assert forall|i: int, j: int| 0 <= i < more.len() && 0 <= j < 5 implies key(#[trigger] more[i]) <= key(
                    #[trigger] now[j],
                ) by {
                    assert(key(kept[m]) <= key(kept[j]));
                    if i < left.len() {
                        assert(more[i] == left[i]);
                        assert(key(left[i]) <= key(kept[m]));
                        assert(key(left[i]) <= key(kept[j]));
                    }
                }
            } else {
                let more = left.push(e);
                assert(now + more =~= (kept + left).push(e));
                vstd::seq_lib::to_multiset_build(kept + left, e);
                assert((now + more).to_multiset() == offers.to_multiset());
                assert forall|i: int, j: int| 0 <= i < more.len() && 0 <= j < 5 implies key(#[trigger] more[i]) <= key(
                    #[trigger] now[j],
                ) by {
                    assert(key(kept[m]) <= key(kept[j]));
                    if i < left.len() {
                        assert(more[i] == left[i]);
                        assert(key(left[i]) <= key(kept[j]));
                    }
                }
            }
        }
    }
}

/// Putting `e` in the place of entry `m`, and that entry behind the others, adds `e`.
proof fn lemma_swapped<T>(kept: Seq<T>, left: Seq<T>, m: int, e: T)
    requires
        0 <= m < kept.len(),
    ensures
        (kept.update(m, e) + left.push(kept[m])).to_multiset() == (kept + left).to_multiset().insert(e),
{
    let all = (kept + left).update(m, e);
    vstd::seq_lib::to_multiset_update(kept + left, m, e);
    vstd::seq_lib::to_multiset_build(all, kept[m]);
    assert(kept.update(m, e) + left.push(kept[m]) =~= all.push(kept[m]));
    assert((kept + left)[m] == kept[m]);
    assert((kept + left).contains(kept[m]));
    vstd::seq_lib::to_multiset_contains(kept + left, kept[m]);
    assert(all.push(kept[m]).to_multiset() =~= (kept + left).to_multiset().insert(e));
}

/// Where five are kept, an offer takes the place of the first of the least, if it is larger, and
/// else changes nothing. While there are fewer, it is put behind them.
pub proof fn a_larger_offer_replaces_the_first_least<T>(kept: Seq<T>, key: spec_fn(T) -> int, e: T, m: int)
    requires
        0 <= m < kept.len() == 5,
        forall|i: int| 0 <= i < 5 ==> key(kept[m]) <= key(#[trigger] kept[i]),
        forall|i: int| 0 <= i < m ==> key(kept[m]) < key(#[trigger] kept[i]),
    ensures
        key(e) > key(kept[m]) ==> offered(kept, key, e) == kept.update(m, e),
        key(e) <= key(kept[m]) ==> offered(kept, key, e) == kept,
        forall|few: Seq<T>| few.len() < 5 ==> #[trigger] offered(few, key, e) == few.push(e),
{
    lemma_first_min(kept, key);
    lemma_first_of_least(kept, key);
    let f = first_min(kept, key);
    if f < m {
        assert(key(kept[m]) < key(kept[f]));
    } else if m < f {
        assert(key(kept[f]) < key(kept[m]));
    }
}

proof fn lemma_first_of_least<T>(s: Seq<T>, key: spec_fn(T) -> int)
    requires
        s.len() > 0,
    ensures
        forall|i: int| 0 <= i < first_min(s, key) ==> key(s[first_min(s, key)]) < key(#[trigger] s[i]),
    decreases s.len(),
{
    if s.len() > 1 {
        let rest = s.drop_last();
        lemma_first_of_least(rest, key);
        lemma_first_min(rest, key);
        assert forall|i: int| 0 <= i < first_min(s, key) implies key(s[first_min(s, key)]) < key(#[trigger] s[i]) by {
            assert(rest[i] == s[i]);
        }
    }
}

/// Every entry is at least as large as those behind it.
pub open spec fn descending<T>(s: Seq<T>, key: spec_fn(T) -> int) -> bool {
    forall|i: int, j: int| 0 <= i <= j < s.len() ==> key(#[trigger] s[i]) >= key(#[trigger] s[j])
}

proof fn lemma_descending_reach<T>(s: Seq<T>, key: spec_fn(T) -> int, t: int, i: int)
    requires
        descending(s, key),
        0 <= i < s.len(),
    ensures
        key(s[i]) >= t <==> reaching(s, key, t) > i,
    decreases s.len(),
{
    let rest = s.drop_last();
    lemma_reaching_bound(s, key, t);
    lemma_reaching_bound(rest, key, t);
    if key(s.last()) >= t {
        assert forall|k: int| 0 <= k < s.len() implies key(#[trigger] s[k]) >= t by {
            assert(key(s[k]) >= key(s[s.len() - 1]));
        }
    } else if i < s.len() - 1 {
        lemma_descending_reach(rest, key, t, i);
    }
}

proof fn lemma_reaching_rearranged<T>(s: Seq<T>, u: Seq<T>, key: spec_fn(T) -> int, t: int)
    requires
        s.to_multiset() == u.to_multiset(),
    ensures
        reaching(s, key, t) == reaching(u, key, t),
    decreases s.len(),
{
    vstd::seq_lib::to_multiset_len(s);
    vstd::seq_lib::to_multiset_len(u);
    if s.len() > 0 {
        let x = s.last();
        let n = s.len() - 1;
        assert(s[n] == x);
        vstd::seq_lib::to_multiset_contains(s, x);
        vstd::seq_lib::to_multiset_contains(u, x);
        let j = u.index_of(x);
        // The last of `u` takes the place of its `x`.
        let y = u.last();
        let v = u.update(j, y).drop_last();
        lemma_reaching_update(u, key, t, j, y);
        vstd::seq_lib::to_multiset_update(u, j, y);
        let w = u.update(j, y);
        assert(w.drop_last() =~= w.remove(n));
        vstd::seq_lib::to_multiset_remove(w, n);
        assert(s.drop_last() =~= s.remove(n));
        vstd::seq_lib::to_multiset_remove(s, n);
        assert(w.last() == y);
        assert(v.to_multiset() =~= s.drop_last().to_multiset());
        lemma_reaching_rearranged(s.drop_last(), v, key, t);
    }
}

/// The order of the offers does not matter for the values that are shown: two rankings of the
/// same offers, put in descending order, agree place by place.
pub proof fn shown_values_ignore_the_order_of_offers<T>(
    key: spec_fn(T) -> int,
    offers: Seq<T>,
    reordered: Seq<T>,
    shown: Seq<T>,
    shown_too: Seq<T>,
)
    requires
        offers.to_multiset() == reordered.to_multiset(),
        descending(shown, key),
        shown.to_multiset() == ranking(Seq::empty(), key, offers).to_multiset(),
        descending(shown_too, key),
        shown_too.to_multiset() == ranking(Seq::empty(), key, reordered).to_multiset(),
    ensures
        shown.len() == shown_too.len(),
        forall|i: int| 0 <= i < shown.len() ==> key(#[trigger] shown[i]) == key(shown_too[i]),
{
    let a = ranking(Seq::empty(), key, offers);
    let b = ranking(Seq::empty(), key, reordered);
    lemma_ranking_len(key, offers);
    lemma_ranking_len(key, reordered);
    vstd::seq_lib::to_multiset_len(offers);
    vstd::seq_lib::to_multiset_len(reordered);
    vstd::seq_lib::to_multiset_len(a);
    vstd::seq_lib::to_multiset_len(b);
    vstd::seq_lib::to_multiset_len(shown);
    vstd::seq_lib::to_multiset_len(shown_too);
    assert forall|i: int| 0 <= i < shown.len() implies key(#[trigger] shown[i]) == key(shown_too[i]) by {
        lemma_same_reach(key, offers, reordered, shown, shown_too, key(shown[i]));
        lemma_same_reach(key, offers, reordered, shown, shown_too, key(shown_too[i]));
        lemma_descending_reach(shown, key, key(shown[i]), i);
        lemma_descending_reach(shown_too, key, key(shown[i]), i);
        lemma_descending_reach(shown, key, key(shown_too[i]), i);
        lemma_descending_reach(shown_too, key, key(shown_too[i]), i);
    }
}

proof fn lemma_same_reach<T>(
    key: spec_fn(T) -> int,
    offers: Seq<T>,
    reordered: Seq<T>,
    shown: Seq<T>,
    shown_too: Seq<T>,
    t: int,
)
    requires
        offers.to_multiset() == reordered.to_multiset(),
        shown.to_multiset() == ranking(Seq::empty(), key, offers).to_multiset(),
        shown_too.to_multiset() == ranking(Seq::empty(), key, reordered).to_multiset(),
    ensures
        reaching(shown, key, t) == reaching(shown_too, key, t),
{
    ranking_keeps_the_largest(key, offers, t);
    ranking_keeps_the_largest(key, reordered, t);
    lemma_reaching_rearranged(offers, reordered, key, t);
    lemma_reaching_rearranged(shown, ranking(Seq::empty(), key, offers), key, t);
    lemma_reaching_rearranged(shown_too, ranking(Seq::empty(), key, reordered), key, t);
}

// ---- Rankings by one value ----

#[derive(Clone, Copy, Debug)]
pub struct TopEntry {
    pub val: u64,
    pub comm: [u8; COMM_LEN],
    pub cl: u8,
}

/// A value and the name it is shown with.
#[verifier::ext_equal]
pub struct Ranked {
    pub val: u64,
    pub name: Seq<u8>,
}

impl View for TopEntry {
    type V = Ranked;

    open spec fn view(&self) -> Ranked {
        Ranked { val: self.val, name: stats::name_in(self.comm@, self.cl) }
    }
}

pub open spec fn by_val() -> spec_fn(Ranked) -> int {
    |r: Ranked| r.val as int
}

impl Sortable for TopEntry {
    open spec fn le(self, other: TopEntry) -> bool {
        self.val >= other.val
    }

    proof fn le_total(a: TopEntry, b: TopEntry) {
    }

    proof fn le_transitive(a: TopEntry, b: TopEntry, c: TopEntry) {
    }

    fn at_most(&self, other: &TopEntry) -> (r: bool) {
        self.val >= other.val
    }
}

/// The entries with the five largest values.
pub struct Top5 {
    pub e: [TopEntry; TOP_N],
    pub n: usize,
}

impl View for Top5 {
    type V = Seq<Ranked>;

    open spec fn view(&self) -> Seq<Ranked> {
        Seq::new(self.n as nat, |i: int| self.e@[i]@)
    }
}

impl Top5 {
    pub open spec fn wf(&self) -> bool {
        &&& self.n <= TOP_N
        &&& forall|i: int| 0 <= i < self.n ==> (#[trigger] self.e@[i]).cl <= COMM_LEN
    }

    /// Every name that is kept has zeros behind it.
    pub open spec fn is_filled(&self) -> bool {
        forall|i: int| 0 <= i < self.n ==> stats::is_filled((#[trigger] self.e@[i]).comm@, self.e@[i].cl)
    }

    /// The slots that are not in use are blank.
    pub open spec fn is_blank_behind(&self) -> bool {
        forall|i: int|
            self.n <= i < TOP_N ==> (#[trigger] self.e@[i]).val == 0 && self.e@[i].cl == 0 && self.e@[i].comm@
                == stats::blank_comm()
    }

    /// Slot `k` holds what was offered, and every other slot is as it was before.
    pub open spec fn took(&self, before: Self, k: int, val: u64, comm: Seq<u8>) -> bool {
        &&& 0 <= k < TOP_N
        &&& self.e@[k].val == val
        &&& self.e@[k].cl == stats::clipped(comm).len()
        &&& self.e@[k].comm@ == stats::padded(comm)
        &&& forall|i: int| 0 <= i < TOP_N && i != k ==> self.e@[i] == before.e@[i]
    }

    pub fn new() -> (r: Top5)
        ensures
            r.wf(),
            r@ == Seq::<Ranked>::empty(),
            r.n == 0,
            r.is_filled(),
            r.is_blank_behind(),
    {
        let comm: [u8; COMM_LEN] = [0; COMM_LEN];
        proof {
            assert(comm@ =~= stats::blank_comm());
        }
        Top5 { e: [TopEntry { val: 0, comm, cl: 0 }; TOP_N], n: 0 }
    }

    /// Offers a value under a name.
    pub fn insert(&mut self, val: u64, comm: &[u8])
        requires
            old(self).wf(),
        ensures
            final(self).wf(),
            final(self)@ == offered(old(self)@, by_val(), (Ranked { val, name: stats::clipped(comm@) })),
            match place_for(old(self)@, by_val(), (Ranked { val, name: stats::clipped(comm@) })) {
                Some(k) => final(self).took(*old(self), k, val, comm@),
                None => *final(self) == *old(self),
            },
            final(self).n == if old(self).n < TOP_N {
                old(self).n + 1
            } else {
                old(self).n as int
            },
            old(self).is_filled() ==> final(self).is_filled(),
            old(self).is_blank_behind() ==> final(self).is_blank_behind(),
    {
        let (c, l) = stats::pack_name(comm);
        let e = TopEntry { val, comm: c, cl: l };
        if self.n < TOP_N {
            self.e[self.n] = e;
            self.n += 1;
            proof {
                assert(self@ =~= old(self)@.push(e@));
            }
        } else {
            let mi: usize = self.min_idx();
            proof {
                lemma_first_min(self@, by_val());
            }
            if val > self.e[mi].val {
                self.e[mi] = e;
                proof {
                    assert(self@ =~= old(self)@.update(mi as int, e@));
                }
            }
        }
    }

    /// The first entry with the least value.
    pub fn min_idx(&self) -> (r: usize)
        requires
            self.wf(),
        ensures
            r == first_min(self@, by_val()),
            r < TOP_N,
    {
        let mut mi: usize = 0;
        let mut mv: u64 = self.e[0].val;
        let mut i: usize = 1;
        while i < self.n
            invariant
                self.wf(),
                1 <= i,
                self.n > 0 ==> i <= self.n,
                mi < i,
                mi < TOP_N,
                mv == self.e@[mi as int].val,
                self.n == 0 ==> mi == 0,
                self.n > 0 ==> mi == first_min(self@.take(i as int), by_val()),
            decreases self.n - i,
        {
            proof {
                assert(self@.take(i + 1).drop_last() =~= self@.take(i as int));
            }
            if self.e[i].val < mv {
                mi = i;
                mv = self.e[i].val;
            }
            i += 1;
        }
        proof {
            if self.n > 0 {
                assert(self@.take(i as int) =~= self@);
            }
        }
        mi
    }

    /// Puts the entries in descending order of value, and shows them.
    pub fn sorted(&mut self) -> (r: &[TopEntry])
        requires
            old(self).wf(),
        ensures
            final(self).wf(),
            descending(final(self)@, by_val()),
            final(self)@.to_multiset() == old(self)@.to_multiset(),
            r@.map_values(|e: TopEntry| e@) == final(self)@,
            forall|i: int| 0 <= i < r@.len() ==> (#[trigger] r@[i]).cl <= COMM_LEN,
            final(self).n == old(self).n,
            r@ == final(self).e@.take(final(self).n as int),
            r@.to_multiset() == old(self).e@.take(old(self).n as int).to_multiset(),
            forall|i: int| final(self).n <= i < TOP_N ==> final(self).e@[i] == old(self).e@[i],
            old(self).is_filled() ==> final(self).is_filled(),
            old(self).is_blank_behind() ==> final(self).is_blank_behind(),
    {
        let n: usize = self.n;
        sorting::sort_prefix(&mut self.e, n);
        proof {
            let f = |e: TopEntry| e@;
            let was = old(self).e@.take(n as int);
            let now = self.e@.take(n as int);
            assert(old(self)@ =~= was.map_values(f));
            assert(self@ =~= now.map_values(f));
            sorting::lemma_map_rearranged(now, was, f);
            assert forall|a: int, b: int| 0 <= a <= b < self@.len() implies by_val()(#[trigger] self@[a]) >= by_val()(
                #[trigger] self@[b],
            ) by {
                assert(now[a].le(now[b]));
            }
            sorting::lemma_rearranged_all(now, was, |e: TopEntry| e.cl <= COMM_LEN);
            if old(self).is_filled() {
                sorting::lemma_rearranged_all(now, was, |e: TopEntry| stats::is_filled(e.comm@, e.cl));
                assert forall|k: int| 0 <= k < n implies stats::is_filled((#[trigger] self.e@[k]).comm@, self.e@[k].cl) by {
                    assert(now[k] == self.e@[k]);
                }
            }
            assert forall|k: int| 0 <= k < n implies (#[trigger] self.e@[k]).cl <= COMM_LEN by {
                assert(now[k] == self.e@[k]);
            }
        }
        let r = slice_subrange(self.e.as_slice(), 0, n);
        proof {
            assert(r@.map_values(|e: TopEntry| e@) =~= self@);
            assert(r@ =~= self.e@.take(n as int));
        }
        r
    }
}

// ---- Rankings by I/O ----

#[derive(Clone, Copy, Debug)]
pub struct IoEntry {
    pub total: u64,
    pub dr: u64,
    pub dw: u64,
    pub comm: [u8; COMM_LEN],
    pub cl: u8,
}

/// Bytes moved, in all, read and written, and the name they are shown with.
#[verifier::ext_equal]
pub struct IoRanked {
    pub total: u64,
    pub dr: u64,
    pub dw: u64,
    pub name: Seq<u8>,
}

impl View for IoEntry {
    type V = IoRanked;

    open spec fn view(&self) -> IoRanked {
        IoRanked { total: self.total, dr: self.dr, dw: self.dw, name: stats::name_in(self.comm@, self.cl) }
    }
}

pub open spec fn by_total() -> spec_fn(IoRanked) -> int {
    |r: IoRanked| r.total as int
}

impl Sortable for IoEntry {
    open spec fn le(self, other: IoEntry) -> bool {
        self.total >= other.total
    }

    proof fn le_total(a: IoEntry, b: IoEntry) {
    }

    proof fn le_transitive(a: IoEntry, b: IoEntry, c: IoEntry) {
    }

    fn at_most(&self, other: &IoEntry) -> (r: bool) {
        self.total >= other.total
    }
}

/// The entries with the five largest totals.
pub struct IoTop5 {
    pub e: [IoEntry; TOP_N],
    pub n: usize,
}

impl View for IoTop5 {
    type V = Seq<IoRanked>;

    open spec fn view(&self) -> Seq<IoRanked> {
        Seq::new(self.n as nat, |i: int| self.e@[i]@)
    }
}

impl IoTop5 {
    pub open spec fn wf(&self) -> bool {
        &&& self.n <= TOP_N
        &&& forall|i: int| 0 <= i < self.n ==> (#[trigger] self.e@[i]).cl <= COMM_LEN
    }

    /// Every name that is kept has zeros behind it.
    pub open spec fn is_filled(&self) -> bool {
        forall|i: int| 0 <= i < self.n ==> stats::is_filled((#[trigger] self.e@[i]).comm@, self.e@[i].cl)
    }

    /// The slots that are not in use are blank.
    pub open spec fn is_blank_behind(&self) -> bool {
        forall|i: int|
            self.n <= i < TOP_N ==> (#[trigger] self.e@[i]).total == 0 && self.e@[i].dr == 0 && self.e@[i].dw == 0
                && self.e@[i].cl == 0 && self.e@[i].comm@ == stats::blank_comm()
    }

    /// Slot `k` holds what was offered, and every other slot is as it was before.
    pub open spec fn took(&self, before: Self, k: int, total: u64, dr: u64, dw: u64, comm: Seq<u8>) -> bool {
        &&& 0 <= k < TOP_N
        &&& self.e@[k].total == total
        &&& self.e@[k].dr == dr
        &&& self.e@[k].dw == dw
        &&& self.e@[k].cl == stats::clipped(comm).len()
        &&& self.e@[k].comm@ == stats::padded(comm)
        &&& forall|i: int| 0 <= i < TOP_N && i != k ==> self.e@[i] == before.e@[i]
    }

    pub fn new() -> (r: IoTop5)
        ensures
            r.wf(),
            r@ == Seq::<IoRanked>::empty(),
            r.n == 0,
            r.is_filled(),
            r.is_blank_behind(),
    {
        let comm: [u8; COMM_LEN] = [0; COMM_LEN];
        proof {
            assert(comm@ =~= stats::blank_comm());
        }
        IoTop5 { e: [IoEntry { total: 0, dr: 0, dw: 0, comm, cl: 0 }; TOP_N], n: 0 }
    }

    /// Offers a total and its parts under a name.
    pub fn insert(&mut self, total: u64, dr: u64, dw: u64, comm: &[u8])
        requires
            old(self).wf(),
        ensures
            final(self).wf(),
            final(self)@ == offered(old(self)@, by_total(), (IoRanked { total, dr, dw, name: stats::clipped(comm@) })),
            match place_for(old(self)@, by_total(), (IoRanked { total, dr, dw, name: stats::clipped(comm@) })) {
                Some(k) => final(self).took(*old(self), k, total, dr, dw, comm@),
                None => *final(self) == *old(self),
            },
            final(self).n == if old(self).n < TOP_N {
                old(self).n + 1
            } else {
                old(self).n as int
            },
            old(self).is_filled() ==> final(self).is_filled(),
            old(self).is_blank_behind() ==> final(self).is_blank_behind(),
    {
        let (c, l) = stats::pack_name(comm);
        let e = IoEntry { total, dr, dw, comm: c, cl: l };
        if self.n < TOP_N {
            self.e[self.n] = e;
            self.n += 1;
            proof {
                assert(self@ =~= old(self)@.push(e@));
            }
        } else {
            let mi: usize = self.min_idx();
            proof {
                lemma_first_min(self@, by_total());
            }
            if total > self.e[mi].total {
                self.e[mi] = e;
                proof {
                    assert(self@ =~= old(self)@.update(mi as int, e@));
                }
            }
        }
    }

    /// The first entry with the least total.
    pub fn min_idx(&self) -> (r: usize)
        requires
            self.wf(),
        ensures
            r == first_min(self@, by_total()),
            r < TOP_N,
    {
        let mut mi: usize = 0;
        let mut mv: u64 = self.e[0].total;
        let mut i: usize = 1;
        while i < self.n
            invariant
                self.wf(),
                1 <= i,
                self.n > 0 ==> i <= self.n,
                mi < i,
                mi < TOP_N,
                mv == self.e@[mi as int].total,
                self.n == 0 ==> mi == 0,
                self.n > 0 ==> mi == first_min(self@.take(i as int), by_total()),
            decreases self.n - i,
        {
            proof {
                assert(self@.take(i + 1).drop_last() =~= self@.take(i as int));
            }
            if self.e[i].total < mv {
                mi = i;
                mv = self.e[i].total;
            }
            i += 1;
        }
        proof {
            if self.n > 0 {
                assert(self@.take(i as int) =~= self@);
            }
        }
        mi
    }

    /// Puts the entries in descending order of total, and shows them.
    pub fn sorted(&mut self) -> (r: &[IoEntry])
        requires
            old(self).wf(),
        ensures
            final(self).wf(),
            descending(final(self)@, by_total()),
            final(self)@.to_multiset() == old(self)@.to_multiset(),
            r@.map_values(|e: IoEntry| e@) == final(self)@,
            forall|i: int| 0 <= i < r@.len() ==> (#[trigger] r@[i]).cl <= COMM_LEN,
            final(self).n == old(self).n,
            r@ == final(self).e@.take(final(self).n as int),
            r@.to_multiset() == old(self).e@.take(old(self).n as int).to_multiset(),
            forall|i: int| final(self).n <= i < TOP_N ==> final(self).e@[i] == old(self).e@[i],
            old(self).is_filled() ==> final(self).is_filled(),
            old(self).is_blank_behind() ==> final(self).is_blank_behind(),
    {
        let n: usize = self.n;
        sorting::sort_prefix(&mut self.e, n);
        proof {
            let f = |e: IoEntry| e@;
            let was = old(self).e@.take(n as int);
            let now = self.e@.take(n as int);
            assert(old(self)@ =~= was.map_values(f));
            assert(self@ =~= now.map_values(f));
            sorting::lemma_map_rearranged(now, was, f);
            assert forall|a: int, b: int| 0 <= a <= b < self@.len() implies by_total()(#[trigger] self@[a]) >= by_total()(
                #[trigger] self@[b],
            ) by {
                assert(now[a].le(now[b]));
            }
            sorting::lemma_rearranged_all(now, was, |e: IoEntry| e.cl <= COMM_LEN);
            if old(self).is_filled() {
                sorting::lemma_rearranged_all(now, was, |e: IoEntry| stats::is_filled(e.comm@, e.cl));
                assert forall|k: int| 0 <= k < n implies stats::is_filled((#[trigger] self.e@[k]).comm@, self.e@[k].cl) by {
                    assert(now[k] == self.e@[k]);
                }
            }
            assert forall|k: int| 0 <= k < n implies (#[trigger] self.e@[k]).cl <= COMM_LEN by {
                assert(now[k] == self.e@[k]);
            }
        }
        let r = slice_subrange(self.e.as_slice(), 0, n);
        proof {
            assert(r@.map_values(|e: IoEntry| e@) =~= self@);
            assert(r@ =~= self.e@.take(n as int));
        }
        r
    }
}

// ---- Blocked tasks ----

#[derive(Clone, Copy, Debug)]
pub struct StateEntry {
    pub state: u8,
    pub comm: [u8; COMM_LEN],
    pub cl: u8,
}

/// A task's state and name.
#[verifier::ext_equal]
pub struct Blocked {
    pub state: u8,
    pub name: Seq<u8>,
}

impl View for StateEntry {
    type V = Blocked;

    open spec fn view(&self) -> Blocked {
        Blocked { state: self.state, name: stats::name_in(self.comm@, self.cl) }
    }
}

impl Sortable for StateEntry {
    open spec fn le(self, other: StateEntry) -> bool {
        self.state <= other.state
    }

    proof fn le_total(a: StateEntry, b: StateEntry) {
    }

    proof fn le_transitive(a: StateEntry, b: StateEntry, c: StateEntry) {
    }

    fn at_most(&self, other: &StateEntry) -> (r: bool) {
        self.state <= other.state
    }
}

/// The first blocked tasks.
pub struct StateList {
    pub e: [StateEntry; MAX_BLOCKED],
    pub n: usize,
}

impl View for StateList {
    type V = Seq<Blocked>;

    open spec fn view(&self) -> Seq<Blocked> {
        Seq::new(self.n as nat, |i: int| self.e@[i]@)
    }
}

/// `listed` after one more task: it is added while there is room.
pub open spec fn listed(list: Seq<Blocked>, b: Blocked) -> Seq<Blocked> {
    if list.len() < MAX_BLOCKED {
        list.push(b)
    } else {
        list
    }
}

/// The list after every one of `tasks` was pushed in turn.
pub open spec fn listing(tasks: Seq<Blocked>) -> Seq<Blocked>
    decreases tasks.len(),
{
    if tasks.len() == 0 {
        Seq::empty()
    } else {
        listed(listing(tasks.drop_last()), tasks.last())
    }
}

/// The first tasks are listed, as many as there is room for; later ones change nothing.
pub proof fn the_first_tasks_are_listed(tasks: Seq<Blocked>)
    ensures
        listing(tasks) == if tasks.len() <= MAX_BLOCKED {
            tasks
        } else {
            tasks.take(MAX_BLOCKED as int)
        },
    decreases tasks.len(),
{
    if tasks.len() > 0 {
        the_first_tasks_are_listed(tasks.drop_last());
        if tasks.len() <= MAX_BLOCKED {
            assert(listing(tasks) =~= tasks);
        } else {
            assert(listing(tasks) =~= tasks.take(MAX_BLOCKED as int));
        }
    } else {
        assert(listing(tasks) =~= tasks);
    }
}

/// No state comes before a smaller one.
pub open spec fn in_state_order(s: Seq<Blocked>) -> bool {
    forall|i: int, j: int| 0 <= i <= j < s.len() ==> (#[trigger] s[i]).state <= (#[trigger] s[j]).state
}

impl StateList {
    pub open spec fn wf(&self) -> bool {
        &&& self.n <= MAX_BLOCKED
        &&& forall|i: int| 0 <= i < self.n ==> (#[trigger] self.e@[i]).cl <= COMM_LEN
    }

    /// Every name that is listed has zeros behind it.
    pub open spec fn is_filled(&self) -> bool {
        forall|i: int| 0 <= i < self.n ==> stats::is_filled((#[trigger] self.e@[i]).comm@, self.e@[i].cl)
    }

    /// The slots that are not in use are blank.
    pub open spec fn is_blank_behind(&self) -> bool {
        forall|i: int|
            self.n <= i < MAX_BLOCKED ==> (#[trigger] self.e@[i]).state == 0 && self.e@[i].cl == 0 && self.e@[i].comm@
                == stats::blank_comm()
    }

    /// Slot `k` holds a task of this state and name, and every other slot is as it was before.
    pub open spec fn took(&self, before: Self, k: int, state: u8, comm: Seq<u8>) -> bool {
        &&& 0 <= k < MAX_BLOCKED
        &&& self.e@[k].state == state
        &&& self.e@[k].cl == stats::clipped(comm).len()
        &&& self.e@[k].comm@ == stats::padded(comm)
        &&& forall|i: int| 0 <= i < MAX_BLOCKED && i != k ==> self.e@[i] == before.e@[i]
    }

    pub fn new() -> (r: StateList)
        ensures
            r.wf(),
            r@ == Seq::<Blocked>::empty(),
            r.n == 0,
            r.is_filled(),
            r.is_blank_behind(),
    {
        let comm: [u8; COMM_LEN] = [0; COMM_LEN];
        proof {
            assert(comm@ =~= stats::blank_comm());
        }
        StateList { e: [StateEntry { state: 0, comm, cl: 0 }; MAX_BLOCKED], n: 0 }
    }

    pub fn push(&mut self, state: u8, comm: &[u8])
        requires
            old(self).wf(),
        ensures
            final(self).wf(),
            final(self)@ == listed(old(self)@, (Blocked { state, name: stats::clipped(comm@) })),
            if old(self).n < MAX_BLOCKED {
                final(self).n == old(self).n + 1 && final(self).took(*old(self), old(self).n as int, state, comm@)
            } else {
                *final(self) == *old(self)
            },
            old(self).is_filled() ==> final(self).is_filled(),
            old(self).is_blank_behind() ==> final(self).is_blank_behind(),
    {
        if self.n >= MAX_BLOCKED {
            return;
        }
        let (c, l) = stats::pack_name(comm);
        let e = StateEntry { state, comm: c, cl: l };
        self.e[self.n] = e;
        self.n += 1;
        proof {
            assert(self@ =~= old(self)@.push(e@));
        }
    }

    /// Puts the tasks in order of state, and shows them.
    pub fn sorted(&mut self) -> (r: &[StateEntry])
        requires
            old(self).wf(),
        ensures
            final(self).wf(),
            in_state_order(final(self)@),
            final(self)@.to_multiset() == old(self)@.to_multiset(),
            r@.map_values(|e: StateEntry| e@) == final(self)@,
            forall|i: int| 0 <= i < r@.len() ==> (#[trigger] r@[i]).cl <= COMM_LEN,
            final(self).n == old(self).n,
            r@ == final(self).e@.take(final(self).n as int),
            r@.to_multiset() == old(self).e@.take(old(self).n as int).to_multiset(),
            forall|i: int| final(self).n <= i < MAX_BLOCKED ==> final(self).e@[i] == old(self).e@[i],
            old(self).is_filled() ==> final(self).is_filled(),
            old(self).is_blank_behind() ==> final(self).is_blank_behind(),
    {
        let n: usize = self.n;
        sorting::sort_prefix(&mut self.e, n);
        proof {
            let f = |e: StateEntry| e@;
            let was = old(self).e@.take(n as int);
            let now = self.e@.take(n as int);
            assert(old(self)@ =~= was.map_values(f));
            assert(self@ =~= now.map_values(f));
            sorting::lemma_map_rearranged(now, was, f);
            assert forall|a: int, b: int| 0 <= a <= b < self@.len() implies (#[trigger] self@[a]).state <= (
            #[trigger] self@[b]).state by {
                assert(now[a].le(now[b]));
            }
            sorting::lemma_rearranged_all(now, was, |e: StateEntry| e.cl <= COMM_LEN);
            if old(self).is_filled() {
                sorting::lemma_rearranged_all(now, was, |e: StateEntry| stats::is_filled(e.comm@, e.cl));
                assert forall|k: int| 0 <= k < n implies stats::is_filled((#[trigger] self.e@[k]).comm@, self.e@[k].cl) by {
                    assert(now[k] == self.e@[k]);
                }
            }
            assert forall|k: int| 0 <= k < n implies (#[trigger] self.e@[k]).cl <= COMM_LEN by {
                assert(now[k] == self.e@[k]);
            }
        }
        let r = slice_subrange(self.e.as_slice(), 0, n);
        proof {
            assert(r@.map_values(|e: StateEntry| e@) =~= self@);
            assert(r@ =~= self.e@.take(n as int));
        }
        r
    }
}

} // verus!
