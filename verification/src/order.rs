//! Stable sorting by integer keys.

use crate::double::Double;
use vstd::prelude::*;

verus! {

/// Keys with their positions, ordered by key and, where keys are equal, by
/// position.
pub open spec fn tag_le(a: (i64, usize), b: (i64, usize)) -> bool {
    a.0 < b.0 || (a.0 == b.0 && a.1 <= b.1)
}

/// The same as a function value.
pub open spec fn by_tag() -> spec_fn((i64, usize), (i64, usize)) -> bool {
    |a: (i64, usize), b: (i64, usize)| tag_le(a, b)
}

pub open spec fn tagged(keys: Seq<i64>) -> Seq<(i64, usize)> {
    Seq::new(keys.len(), |i: int| (keys[i], i as usize))
}

/// The keys in ascending order, each with the position it came from; equal keys
/// keep their order.
pub open spec fn sorted_tags(keys: Seq<i64>) -> Seq<(i64, usize)> {
    tagged(keys).sort_by(by_tag())
}

/// Position, before sorting, of what stands at place `i` after it.
pub open spec fn origin(keys: Seq<i64>, i: int) -> int {
    sorted_tags(keys)[i].1 as int
}

/// Position `k` is at some place after sorting.
pub open spec fn occurs(keys: Seq<i64>, k: int) -> bool {
    exists|i: int| 0 <= i < keys.len() && #[trigger] origin(keys, i) == k
}

proof fn lemma_tag_order()
    ensures
        vstd::relations::total_ordering(by_tag()),
{
}

/// Sorting keeps what is sorted: every position occurs at exactly one place,
/// keys ascend, and equal keys keep their order.
pub proof fn law_sorted_tags(keys: Seq<i64>)
    requires
        keys.len() <= usize::MAX + 1,
    ensures
        sorted_tags(keys).len() == keys.len(),
        forall|i: int|
            0 <= i < keys.len() ==> 0 <= #[trigger] origin(keys, i) < keys.len() && sorted_tags(
                keys,
            )[i].0 == keys[origin(keys, i)],
        forall|i: int, j: int|
            0 <= i < j < keys.len() ==> {
                let (a, b) = (#[trigger] origin(keys, i), #[trigger] origin(keys, j));
                keys[a] < keys[b] || (keys[a] == keys[b] && a < b)
            },
        forall|k: int| 0 <= k < keys.len() ==> #[trigger] occurs(keys, k),
{
    broadcast use vstd::seq_lib::group_to_multiset_ensures;

    lemma_tag_order();
    let t = tagged(keys);
    let s = sorted_tags(keys);
    t.lemma_sort_by_ensures(by_tag());
    assert(s.len() == t.len()) by {
        assert(s.len() == s.to_multiset().len());
        assert(t.len() == t.to_multiset().len());
    }
    assert forall|i: int| 0 <= i < keys.len() implies 0 <= #[trigger] origin(keys, i) < keys.len()
        && s[i].0 == keys[origin(keys, i)] by {
        assert(s.contains(s[i]));
        assert(s.to_multiset().count(s[i]) > 0);
        assert(t.contains(s[i]));
        let k = choose|k: int| 0 <= k < t.len() && t[k] == s[i];
        assert(t[k] == (keys[k], k as usize));
    }
    assert forall|k: int| 0 <= k < keys.len() implies #[trigger] occurs(keys, k) by {
        assert(t.contains(t[k]));
        assert(t.to_multiset().count(t[k]) > 0);
        assert(s.contains(t[k]));
        let i = choose|i: int| 0 <= i < s.len() && s[i] == t[k];
        assert(origin(keys, i) == k);
    }
    assert forall|i: int, j: int| 0 <= i < j < keys.len() implies {
        let (a, b) = (#[trigger] origin(keys, i), #[trigger] origin(keys, j));
        keys[a] < keys[b] || (keys[a] == keys[b] && a < b)
    } by {
        let le = by_tag();
        assert(le(s[i], s[j]));
        if s[i] == s[j] {
            lemma_once(keys, s, i, j);
        }
    }
}

/// No tag occurs twice.
proof fn lemma_once(keys: Seq<i64>, s: Seq<(i64, usize)>, i: int, j: int)
    requires
        keys.len() <= usize::MAX + 1,
        s.to_multiset() == tagged(keys).to_multiset(),
        0 <= i < j < s.len(),
    ensures
        s[i] != s[j],
{
    broadcast use vstd::seq_lib::group_to_multiset_ensures;

    let t = tagged(keys);
    assert(t.no_duplicates());
    t.lemma_multiset_has_no_duplicates();
    if s[i] == s[j] {
        let r = s.remove(i);
        assert(r[j - 1] == s[j]);
        assert(r.contains(s[i]));
        assert(r.to_multiset() =~= s.to_multiset().remove(s[i]));
        assert(r.to_multiset().count(s[i]) > 0);
        assert(t.to_multiset().contains(s[i]));
    }
}

/// Merges two sorted runs.
fn merge(a: &Vec<(i64, usize)>, b: &Vec<(i64, usize)>) -> (r: Vec<(i64, usize)>)
    requires
        vstd::relations::sorted_by(a@, by_tag()),
        vstd::relations::sorted_by(b@, by_tag()),
    ensures
        vstd::relations::sorted_by(r@, by_tag()),
        r@.to_multiset() == a@.to_multiset().add(b@.to_multiset()),
{
    broadcast use vstd::seq_lib::group_to_multiset_ensures;

    let mut r: Vec<(i64, usize)> = Vec::new();
    let mut i: usize = 0;
    let mut j: usize = 0;
    proof {
        assert(a@.take(0).to_multiset() =~= vstd::multiset::Multiset::empty());
        assert(b@.take(0).to_multiset() =~= vstd::multiset::Multiset::empty());
    }
    while i < a.len() || j < b.len()
        invariant
            i <= a@.len(),
            j <= b@.len(),
            vstd::relations::sorted_by(a@, by_tag()),
            vstd::relations::sorted_by(b@, by_tag()),
            vstd::relations::sorted_by(r@, by_tag()),
            r@.to_multiset() == a@.take(i as int).to_multiset().add(
                b@.take(j as int).to_multiset(),
            ),
            forall|k: int, m: int|
                0 <= k < r@.len() && i <= m < a@.len() ==> tag_le(
                    #[trigger] r@[k],
                    #[trigger] a@[m],
                ),
            forall|k: int, m: int|
                0 <= k < r@.len() && j <= m < b@.len() ==> tag_le(
                    #[trigger] r@[k],
                    #[trigger] b@[m],
                ),
        decreases (a@.len() - i) + (b@.len() - j),
    {
        let from_a: bool = if i < a.len() {
            if j < b.len() {
                let (x, y) = (a[i], b[j]);
                x.0 < y.0 || (x.0 == y.0 && x.1 <= y.1)
            } else {
                true
            }
        } else {
            false
        };
        let ghost before = r@;
        let le = Ghost(by_tag());
        if from_a {
            proof {
                assert forall|m: int| i <= m < a@.len() implies tag_le(
                    a@[i as int],
                    #[trigger] a@[m],
                ) by {
                    if m > i {
                        assert(le@(a@[i as int], a@[m]));
                    }
                }
                assert forall|m: int| j <= m < b@.len() implies tag_le(
                    a@[i as int],
                    #[trigger] b@[m],
                ) by {
                    if m > j {
                        assert(le@(b@[j as int], b@[m]));
                    }
                }
                assert(a@.take(i + 1) =~= a@.take(i as int).push(a@[i as int]));
            }
            r.push(a[i]);
            i = i + 1;
        } else {
            proof {
                assert forall|m: int| j <= m < b@.len() implies tag_le(
                    b@[j as int],
                    #[trigger] b@[m],
                ) by {
                    if m > j {
                        assert(le@(b@[j as int], b@[m]));
                    }
                }
                assert forall|m: int| i <= m < a@.len() implies tag_le(
                    b@[j as int],
                    #[trigger] a@[m],
                ) by {
                    if m > i {
                        assert(le@(a@[i as int], a@[m]));
                    }
                }
                assert(b@.take(j + 1) =~= b@.take(j as int).push(b@[j as int]));
            }
            r.push(b[j]);
            j = j + 1;
        }
        proof {
            assert(r@ =~= before.push(r@.last()));
            vstd::seq_lib::to_multiset_build(before, r@.last());
            if from_a {
                vstd::seq_lib::to_multiset_build(a@.take(i - 1), r@.last());
                assert(a@.take(i as int) =~= a@.take(i - 1).push(r@.last()));
            } else {
                vstd::seq_lib::to_multiset_build(b@.take(j - 1), r@.last());
                assert(b@.take(j as int) =~= b@.take(j - 1).push(r@.last()));
            }
            assert(r@.to_multiset() =~= a@.take(i as int).to_multiset().add(
                b@.take(j as int).to_multiset(),
            ));
            assert forall|x: int, y: int| 0 <= x < y < r@.len() implies #[trigger] le@(
                r@[x],
                r@[y],
            ) by {
                if y < before.len() {
                    assert(le@(before[x], before[y]));
                } else {
                    assert(r@[x] == before[x]);
                }
            }
        }
    }
    proof {
        assert(a@.take(a@.len() as int) =~= a@);
        assert(b@.take(b@.len() as int) =~= b@);
    }
    r
}

/// Sorts the stretch from `lo` to `hi`.
fn merge_sort(v: &Vec<(i64, usize)>, lo: usize, hi: usize) -> (r: Vec<(i64, usize)>)
    requires
        lo <= hi <= v@.len(),
    ensures
        vstd::relations::sorted_by(r@, by_tag()),
        r@.to_multiset() == v@.subrange(lo as int, hi as int).to_multiset(),
    decreases hi - lo,
{
    if hi - lo <= 1 {
        let mut r: Vec<(i64, usize)> = Vec::new();
        if lo < hi {
            r.push(v[lo]);
        }
        proof {
            assert(r@ =~= v@.subrange(lo as int, hi as int));
        }
        return r;
    }
    let mid: usize = lo + (hi - lo) / 2;
    let a: Vec<(i64, usize)> = merge_sort(v, lo, mid);
    let b: Vec<(i64, usize)> = merge_sort(v, mid, hi);
    proof {
        let (x, y) = (v@.subrange(lo as int, mid as int), v@.subrange(mid as int, hi as int));
        vstd::seq_lib::lemma_multiset_commutative(x, y);
        assert(x + y =~= v@.subrange(lo as int, hi as int));
    }
    merge(&a, &b)
}

/// The order in which a stable sort by key puts the positions.
pub fn stable_order(keys: &Vec<i64>) -> (r: Vec<usize>)
    ensures
        r@.len() == keys@.len(),
        forall|i: int| 0 <= i < r@.len() ==> #[trigger] r@[i] == origin(keys@, i),
        forall|i: int| 0 <= i < r@.len() ==> #[trigger] r@[i] < keys@.len(),
{
    let n: usize = keys.len();
    let mut tags: Vec<(i64, usize)> = Vec::new();
    let mut i: usize = 0;
    while i < n
        invariant
            n == keys@.len(),
            i <= n,
            tags@ == tagged(keys@).take(i as int),
        decreases n - i,
    {
        tags.push((keys[i], i));
        i = i + 1;
        assert(tags@ =~= tagged(keys@).take(i as int));
    }
    let sorted: Vec<(i64, usize)> = merge_sort(&tags, 0, n);
    proof {
        assert(tags@.subrange(0, n as int) =~= tagged(keys@));
        lemma_tag_order();
        tagged(keys@).lemma_sort_by_ensures(by_tag());
        vstd::seq_lib::lemma_sorted_unique(sorted@, sorted_tags(keys@), by_tag());
        law_sorted_tags(keys@);
    }
    let mut r: Vec<usize> = Vec::new();
    let mut i: usize = 0;
    while i < n
        invariant
            n == keys@.len(),
            i <= n,
            sorted@ == sorted_tags(keys@),
            sorted@.len() == n,
            r@.len() == i,
            forall|k: int| 0 <= k < i ==> #[trigger] r@[k] == origin(keys@, k),
        decreases n - i,
    {
        r.push(sorted[i].1);
        i = i + 1;
    }
    r
}

/// Places of a list of numbers in the total order.
pub open spec fn ranks(s: Seq<Double>) -> Seq<i64> {
    s.map_values(|d: Double| d.rank() as i64)
}

/// The numbers in the total order.
pub open spec fn in_order(s: Seq<Double>) -> Seq<Double> {
    Seq::new(s.len(), |i: int| s[origin(ranks(s), i)])
}

/// Sorts numbers by the total order.
pub fn sort_doubles(v: &Vec<Double>) -> (r: Vec<Double>)
    ensures
        r@ == in_order(v@),
{
    let mut keys: Vec<i64> = Vec::new();
    let mut i: usize = 0;
    while i < v.len()
        invariant
            i <= v@.len(),
            keys@ == ranks(v@).take(i as int),
        decreases v@.len() - i,
    {
        keys.push(v[i].signed_rank());
        i = i + 1;
        assert(keys@ =~= ranks(v@).take(i as int));
    }
    assert(keys@ =~= ranks(v@));
    let order: Vec<usize> = stable_order(&keys);
    let mut r: Vec<Double> = Vec::new();
    let mut i: usize = 0;
    while i < order.len()
        invariant
            order@.len() == v@.len(),
            forall|k: int| 0 <= k < order@.len() ==> #[trigger] order@[k] == origin(ranks(v@), k),
            forall|k: int| 0 <= k < order@.len() ==> #[trigger] order@[k] < v@.len(),
            i <= order@.len(),
            r@ == in_order(v@).take(i as int),
        decreases order@.len() - i,
    {
        r.push(v[order[i]]);
        i = i + 1;
        assert(r@ =~= in_order(v@).take(i as int));
    }
    assert(r@ =~= in_order(v@));
    r
}

/// Sorting puts numbers in the total order and keeps them all: each stands at some place.
pub proof fn law_sorted_numbers_ascend(s: Seq<Double>)
    requires
        s.len() <= usize::MAX,
    ensures
        in_order(s).len() == s.len(),
        forall|i: int, j: int|
            0 <= i < j < s.len() ==> (#[trigger] in_order(s)[i]).rank() <= (
            #[trigger] in_order(s)[j]).rank(),
        forall|k: int| 0 <= k < s.len() ==> in_order(s).contains(#[trigger] s[k]),
        forall|k: int| 0 <= k < s.len() ==> s.contains(#[trigger] in_order(s)[k]),
{
    let keys = ranks(s);
    law_sorted_tags(keys);
    assert forall|i: int, j: int| 0 <= i < j < s.len() implies (#[trigger] in_order(s)[i]).rank()
        <= (#[trigger] in_order(s)[j]).rank() by {
        let (a, b) = (origin(keys, i), origin(keys, j));
        assert(keys[a] <= keys[b]);
    }
    assert forall|k: int| 0 <= k < s.len() implies in_order(s).contains(#[trigger] s[k]) by {
        assert(occurs(keys, k));
        let i = choose|i: int| 0 <= i < keys.len() && #[trigger] origin(keys, i) == k;
        assert(in_order(s)[i] == s[k]);
    }
    assert forall|k: int| 0 <= k < s.len() implies s.contains(#[trigger] in_order(s)[k]) by {
        assert(0 <= origin(keys, k) < s.len());
        assert(s[origin(keys, k)] == in_order(s)[k]);
    }
}

} // verus!
