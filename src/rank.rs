//! Weighted ranking: buckets in ascending order of their derived rank.
use vstd::prelude::*;
use vstd::arithmetic::div_mod::{lemma_mod_mod, lemma_mod_multiples_vanish};
use vstd::seq_lib::group_to_multiset_ensures;

verus! {

/// The low 32 bits of `raw * multiplier`, read as an unsigned number. The
/// two's-complement wrap of a 64-bit product keeps those bits, so this is also
/// the low half of the wrapped product.
pub open spec fn rank_of(raw: i64, multiplier: i64) -> u32 {
    ((raw as int * multiplier as int) % 0x1_0000_0000) as u32
}

/// The derived rank of one raw score under `multiplier`.
pub fn derived_rank(raw: i64, multiplier: i64) -> (r: u32)
    ensures
        r == rank_of(raw, multiplier),
        r as int == (raw as int * multiplier as int) % 0x1_0000_0000,
{
    let product: i64 = raw.wrapping_mul(multiplier);
    // Truncation keeps the low 32 bits.
    let r: u32 = product as u32;
    proof {
        let x: int = raw as int * multiplier as int;
        assert(r as int == (product as int) % 0x1_0000_0000) by (bit_vector)
            requires
                r == product as u32,
        ;
        lemma_mod_mod(x, 0x1_0000_0000, 0x1_0000_0000);
        let low: int = x % 0x1_0000_0000_0000_0000;
        if low > i64::MAX {
            lemma_mod_multiples_vanish(-0x1_0000_0000, low, 0x1_0000_0000);
            assert(product as int == low - 0x1_0000_0000_0000_0000);
        } else {
            assert(product as int == low);
        }
    }
    r
}

/// No two entries name the same bucket: the entries form a mapping.
pub open spec fn keys_distinct(scores: Seq<(u64, i64)>) -> bool {
    forall|i: int, j: int|
        0 <= i < scores.len() && 0 <= j < scores.len() && i != j ==> scores[i].0 != scores[j].0
}

/// The mapping from bucket to raw score that the entries list.
pub open spec fn score_map(scores: Seq<(u64, i64)>) -> Map<u64, i64> {
    Map::new(
        |b: u64| exists|i: int| 0 <= i < scores.len() && scores[i].0 == b,
        |b: u64| scores[choose|i: int| 0 <= i < scores.len() && scores[i].0 == b].1,
    )
}

/// Bucket `a` comes before bucket `b`: a lower derived rank, or the same rank
/// and a lower identifier.
pub open spec fn ranks_before(m: Map<u64, i64>, multiplier: i64, a: u64, b: u64) -> bool {
    let ra = rank_of(m[a], multiplier);
    let rb = rank_of(m[b], multiplier);
    ra < rb || (ra == rb && a < b)
}

/// `r` lists every bucket of `m` once, in ascending order of derived rank, ties
/// in ascending order of identifier.
pub open spec fn is_ranking(m: Map<u64, i64>, multiplier: i64, r: Seq<u64>) -> bool {
    &&& forall|b: u64| #[trigger] r.contains(b) <==> m.dom().contains(b)
    &&& forall|i: int, j: int|
        0 <= i < j < r.len() ==> ranks_before(m, multiplier, #[trigger] r[i], #[trigger] r[j])
}

/// A bucket's derived rank paired with its identifier: the sort key.
spec fn entry_of(score: (u64, i64), multiplier: i64) -> (u32, u64) {
    (rank_of(score.1, multiplier), score.0)
}

/// Strict lexicographic order on sort keys.
spec fn entry_lt(a: (u32, u64), b: (u32, u64)) -> bool {
    a.0 < b.0 || (a.0 == b.0 && a.1 < b.1)
}

fn entry_less(a: (u32, u64), b: (u32, u64)) -> (r: bool)
    ensures
        r == entry_lt(a, b),
{
    a.0 < b.0 || (a.0 == b.0 && a.1 < b.1)
}

/// Each sort key is below every later one.
spec fn strictly_sorted(v: Seq<(u32, u64)>) -> bool {
    forall|a: int, b: int| 0 <= a < b < v.len() ==> entry_lt(#[trigger] v[a], #[trigger] v[b])
}

/// The keys of `left` and `right` in one strictly ascending list.
fn merge(left: &Vec<(u32, u64)>, right: &Vec<(u32, u64)>) -> (r: Vec<(u32, u64)>)
    requires
        strictly_sorted(left@),
        strictly_sorted(right@),
        forall|x: (u32, u64)| left@.contains(x) ==> !right@.contains(x),
    ensures
        r@.len() == left@.len() + right@.len(),
        strictly_sorted(r@),
        forall|x: (u32, u64)| #[trigger] r@.contains(x) <==> (left@.contains(x) || right@.contains(x)),
{
    let mut r: Vec<(u32, u64)> = Vec::new();
    let mut i: usize = 0;
    let mut j: usize = 0;
    while i < left.len() || j < right.len()
        invariant
            i <= left@.len(),
            j <= right@.len(),
            r@.len() == i + j,
            strictly_sorted(left@),
            strictly_sorted(right@),
            forall|x: (u32, u64)| left@.contains(x) ==> !right@.contains(x),
            strictly_sorted(r@),
            forall|x: (u32, u64)| #[trigger] r@.contains(x) <==> (left@.subrange(0, i as int).contains(x) || right@.subrange(0, j as int).contains(x)),
            forall|k: int| 0 <= k < r@.len() ==> (i < left@.len() ==> entry_lt(#[trigger] r@[k], left@[i as int])),
            forall|k: int| 0 <= k < r@.len() ==> (j < right@.len() ==> entry_lt(#[trigger] r@[k], right@[j as int])),
        decreases left@.len() + right@.len() - i - j,
    {
        let take_left = j == right.len() || (i < left.len() && entry_less(left[i], right[j]));
        let ghost before = r@;
        if take_left {
            let e = left[i];
            proof {
                if j < right@.len() {
                    assert(left@.contains(e));
                    assert(right@[j as int] != e);
                }
            }
            r.push(e);
            proof {
                assert forall|x: (u32, u64)| #[trigger] r@.contains(x) <==> (left@.subrange(0, i + 1).contains(x) || right@.subrange(0, j as int).contains(x)) by {
                    if r@.contains(x) && x != e {
                        let k = choose|k: int| 0 <= k < r@.len() && r@[k] == x;
                        assert(before[k] == x);
                        assert(before.contains(x));
                    }
                    if left@.subrange(0, i + 1).contains(x) && x != e {
                        let grown = left@.subrange(0, i + 1);
                        let k = choose|k: int| 0 <= k < grown.len() && grown[k] == x;
                        assert(k < i);
                        assert(left@.subrange(0, i as int)[k] == x);
                        assert(before.contains(x));
                        let q = choose|q: int| 0 <= q < before.len() && before[q] == x;
                        assert(r@[q] == x);
                    }
                    if right@.subrange(0, j as int).contains(x) {
                        assert(before.contains(x));
                        let q = choose|q: int| 0 <= q < before.len() && before[q] == x;
                        assert(r@[q] == x);
                    }
                    if x == e {
                        assert(left@.subrange(0, i + 1)[i as int] == e);
                        assert(r@[r@.len() - 1] == e);
                    }
                }
                assert forall|k: int| 0 <= k < r@.len() implies (i + 1 < left@.len() ==> entry_lt(#[trigger] r@[k], left@[i + 1])) by {
                    if i + 1 < left@.len() {
                        assert(entry_lt(left@[i as int], left@[i + 1]));
                    }
                }
            }
            i = i + 1;
        } else {
            let e = right[j];
            proof {
                if i < left@.len() {
                    assert(left@.contains(left@[i as int]));
                    assert(left@[i as int] != e);
                }
            }
            r.push(e);
            proof {
                assert forall|x: (u32, u64)| #[trigger] r@.contains(x) <==> (left@.subrange(0, i as int).contains(x) || right@.subrange(0, j + 1).contains(x)) by {
                    if r@.contains(x) && x != e {
                        let k = choose|k: int| 0 <= k < r@.len() && r@[k] == x;
                        assert(before[k] == x);
                        assert(before.contains(x));
                    }
                    if right@.subrange(0, j + 1).contains(x) && x != e {
                        let grown = right@.subrange(0, j + 1);
                        let k = choose|k: int| 0 <= k < grown.len() && grown[k] == x;
                        assert(k < j);
                        assert(right@.subrange(0, j as int)[k] == x);
                        assert(before.contains(x));
                        let q = choose|q: int| 0 <= q < before.len() && before[q] == x;
                        assert(r@[q] == x);
                    }
                    if left@.subrange(0, i as int).contains(x) {
                        assert(before.contains(x));
                        let q = choose|q: int| 0 <= q < before.len() && before[q] == x;
                        assert(r@[q] == x);
                    }
                    if x == e {
                        assert(right@.subrange(0, j + 1)[j as int] == e);
                        assert(r@[r@.len() - 1] == e);
                    }
                }
                assert forall|k: int| 0 <= k < r@.len() implies (j + 1 < right@.len() ==> entry_lt(#[trigger] r@[k], right@[j + 1])) by {
                    if j + 1 < right@.len() {
                        assert(entry_lt(right@[j as int], right@[j + 1]));
                    }
                }
            }
            j = j + 1;
        }
    }
    proof {
        assert(left@.subrange(0, i as int) =~= left@);
        assert(right@.subrange(0, j as int) =~= right@);
    }
    r
}

/// The keys `v[lo..hi]`, strictly ascending: a merge sort.
fn sort_range(v: &Vec<(u32, u64)>, lo: usize, hi: usize) -> (r: Vec<(u32, u64)>)
    requires
        lo <= hi <= v@.len(),
        v@.no_duplicates(),
    ensures
        r@.len() == hi - lo,
        strictly_sorted(r@),
        forall|x: (u32, u64)| #[trigger] r@.contains(x) <==> v@.subrange(lo as int, hi as int).contains(x),
    decreases hi - lo,
{
    if hi - lo <= 1 {
        let mut r: Vec<(u32, u64)> = Vec::new();
        if hi - lo == 1 {
            r.push(v[lo]);
        }
        proof {
            assert(r@ =~= v@.subrange(lo as int, hi as int));
        }
        return r;
    }
    let mid: usize = lo + (hi - lo) / 2;
    let left = sort_range(v, lo, mid);
    let right = sort_range(v, mid, hi);
    let ghost whole = v@.subrange(lo as int, hi as int);
    let ghost low = v@.subrange(lo as int, mid as int);
    let ghost high = v@.subrange(mid as int, hi as int);
    proof {
        assert forall|x: (u32, u64)| left@.contains(x) implies !right@.contains(x) by {
            if right@.contains(x) {
                assert(low.contains(x) && high.contains(x));
                let p = choose|p: int| 0 <= p < low.len() && low[p] == x;
                let q = choose|q: int| 0 <= q < high.len() && high[q] == x;
                assert(v@[lo + p] == v@[mid + q]);
            }
        }
        assert forall|x: (u32, u64)| #[trigger] whole.contains(x) <==> (low.contains(x) || high.contains(x)) by {
            if whole.contains(x) {
                let p = choose|p: int| 0 <= p < whole.len() && whole[p] == x;
                if p < mid - lo {
                    assert(low[p] == x);
                } else {
                    assert(high[p - (mid - lo)] == x);
                }
            }
            if low.contains(x) {
                let p = choose|p: int| 0 <= p < low.len() && low[p] == x;
                assert(whole[p] == x);
            }
            if high.contains(x) {
                let p = choose|p: int| 0 <= p < high.len() && high[p] == x;
                assert(whole[p + (mid - lo)] == x);
            }
        }
    }
    merge(&left, &right)
}

/// The score that `score_map` gives the bucket of an entry is that entry's.
pub proof fn lemma_score_map_at(scores: Seq<(u64, i64)>, i: int)
    requires
        keys_distinct(scores),
        0 <= i < scores.len(),
    ensures
        score_map(scores).dom().contains(scores[i].0),
        score_map(scores)[scores[i].0] == scores[i].1,
{
    let b = scores[i].0;
    assert(exists|j: int| 0 <= j < scores.len() && scores[j].0 == b);
    let j = choose|j: int| 0 <= j < scores.len() && scores[j].0 == b;
    assert(j == i);
}

/// The buckets of `scores`, most preferred first: ascending derived rank under
/// `multiplier`, and among equal ranks ascending identifier.
pub fn sorted_bucket_list(scores: &Vec<(u64, i64)>, multiplier: i64) -> (r: Vec<u64>)
    requires
        keys_distinct(scores@),
    ensures
        r@.len() == scores@.len(),
        is_ranking(score_map(scores@), multiplier, r@),
{
    let n = scores.len();
    // The sort key of each score, in the order given.
    let mut entries: Vec<(u32, u64)> = Vec::new();
    let mut i: usize = 0;
    while i < n
        invariant
            i <= n == scores@.len(),
            entries@.len() == i,
            forall|a: int| 0 <= a < i ==> #[trigger] entries@[a] == entry_of(scores@[a], multiplier),
        decreases n - i,
    {
        let (bucket, raw) = scores[i];
        entries.push((derived_rank(raw, multiplier), bucket));
        i = i + 1;
    }
    proof {
        assert forall|a: int, b: int| 0 <= a < entries@.len() && 0 <= b < entries@.len() && a != b implies entries@[a] != entries@[b] by {
            assert(scores@[a].0 != scores@[b].0);
        }
        assert(entries@.subrange(0, n as int) =~= entries@);
    }
    let sorted = sort_range(&entries, 0, n);
    proof {
        assert forall|a: int| 0 <= a < sorted@.len() implies exists|j: int| 0 <= j < n && #[trigger] sorted@[a] == entry_of(scores@[j], multiplier) by {
            assert(sorted@.contains(sorted@[a]));
            let j = choose|j: int| 0 <= j < entries@.len() && entries@[j] == sorted@[a];
            assert(entries@[j] == entry_of(scores@[j], multiplier));
        }
        assert forall|j: int| 0 <= j < n implies sorted@.contains(#[trigger] entry_of(scores@[j], multiplier)) by {
            assert(entries@[j] == entry_of(scores@[j], multiplier));
            assert(entries@.contains(entries@[j]));
        }
    }
    let mut r: Vec<u64> = Vec::new();
    let mut k: usize = 0;
    while k < n
        invariant
            k <= n == sorted@.len(),
            r@.len() == k,
            forall|a: int| 0 <= a < k ==> #[trigger] r@[a] == sorted@[a].1,
        decreases n - k,
    {
        r.push(sorted[k].1);
        k = k + 1;
    }
    proof {
        let m = score_map(scores@);
        assert forall|a: int| 0 <= a < n implies m.dom().contains(#[trigger] r@[a]) && entry_of((r@[a], m[r@[a]]), multiplier) == sorted@[a] by {
            let j = choose|j: int| 0 <= j < n && sorted@[a] == entry_of(scores@[j], multiplier);
            lemma_score_map_at(scores@, j);
        }
        assert forall|b: u64| #[trigger] r@.contains(b) <==> m.dom().contains(b) by {
            if m.dom().contains(b) {
                let j = choose|j: int| 0 <= j < scores@.len() && scores@[j].0 == b;
                let a = choose|a: int| 0 <= a < sorted@.len() && sorted@[a] == entry_of(scores@[j], multiplier);
                assert(r@[a] == b);
            }
        }
        assert forall|a: int, b: int| 0 <= a < b < r@.len() implies ranks_before(m, multiplier, #[trigger] r@[a], #[trigger] r@[b]) by {
            assert(entry_lt(sorted@[a], sorted@[b]));
            assert(entry_of((r@[a], m[r@[a]]), multiplier) == sorted@[a]);
            assert(entry_of((r@[b], m[r@[b]]), multiplier) == sorted@[b]);
        }
    }
    r
}

/// Two sequences, each strictly ascending in `ranks_before`, that hold the same
/// buckets are the same sequence.
proof fn lemma_same_members_same_order(m: Map<u64, i64>, multiplier: i64, r1: Seq<u64>, r2: Seq<u64>)
    requires
        forall|i: int, j: int|
            0 <= i < j < r1.len() ==> ranks_before(m, multiplier, #[trigger] r1[i], #[trigger] r1[j]),
        forall|i: int, j: int|
            0 <= i < j < r2.len() ==> ranks_before(m, multiplier, #[trigger] r2[i], #[trigger] r2[j]),
        forall|b: u64| #[trigger] r1.contains(b) <==> r2.contains(b),
    ensures
        r1 == r2,
    decreases r1.len(),
{
    if r1.len() == 0 {
        if r2.len() > 0 {
            assert(r2.contains(r2[0]));
            assert(r1.contains(r2[0]));
        }
        assert(r1 =~= r2);
    } else {
        assert(r1.contains(r1[0]));
        let j = choose|j: int| 0 <= j < r2.len() && r2[j] == r1[0];
        assert(r2.contains(r2[0]));
        assert(r1.contains(r2[0]));
        let i = choose|i: int| 0 <= i < r1.len() && r1[i] == r2[0];
        if j > 0 {
            assert(ranks_before(m, multiplier, r2[0], r2[j]));
            assert(i > 0);
            assert(ranks_before(m, multiplier, r1[0], r1[i]));
        }
        assert(r1[0] == r2[0]);
        let t1 = r1.subrange(1, r1.len() as int);
        let t2 = r2.subrange(1, r2.len() as int);
        assert forall|b: u64| #[trigger] t1.contains(b) <==> t2.contains(b) by {
            if t1.contains(b) {
                let a = choose|a: int| 0 <= a < t1.len() && t1[a] == b;
                assert(r1[a + 1] == b);
                assert(ranks_before(m, multiplier, r1[0], r1[a + 1]));
                assert(r1.contains(b));
                let c = choose|c: int| 0 <= c < r2.len() && r2[c] == b;
                assert(c != 0);
                assert(t2[c - 1] == b);
            }
            if t2.contains(b) {
                let a = choose|a: int| 0 <= a < t2.len() && t2[a] == b;
                assert(r2[a + 1] == b);
                assert(ranks_before(m, multiplier, r2[0], r2[a + 1]));
                assert(r2.contains(b));
                assert(r1.contains(b));
                let c = choose|c: int| 0 <= c < r1.len() && r1[c] == b;
                assert(c != 0);
                assert(t1[c - 1] == b);
            }
        }
        assert forall|i: int, j: int| 0 <= i < j < t1.len() implies ranks_before(m, multiplier, #[trigger] t1[i], #[trigger] t1[j]) by {
            assert(t1[i] == r1[i + 1] && t1[j] == r1[j + 1]);
        }
        assert forall|i: int, j: int| 0 <= i < j < t2.len() implies ranks_before(m, multiplier, #[trigger] t2[i], #[trigger] t2[j]) by {
            assert(t2[i] == r2[i + 1] && t2[j] == r2[j + 1]);
        }
        lemma_same_members_same_order(m, multiplier, t1, t2);
        assert(r1 =~= seq![r1[0]] + t1);
        assert(r2 =~= seq![r2[0]] + t2);
    }
}

/// A mapping and a multiplier admit exactly one ranking, so ranking the same
/// mapping twice gives the same list.
pub proof fn lemma_ranking_unique(m: Map<u64, i64>, multiplier: i64, r1: Seq<u64>, r2: Seq<u64>)
    requires
        is_ranking(m, multiplier, r1),
        is_ranking(m, multiplier, r2),
    ensures
        r1 == r2,
{
    lemma_same_members_same_order(m, multiplier, r1, r2);
}

/// Listing the entries of a mapping in another order does not change its
/// ranking: only which bucket has which score counts.
pub proof fn lemma_ranking_ignores_entry_order(
    s1: Seq<(u64, i64)>,
    s2: Seq<(u64, i64)>,
    multiplier: i64,
    r1: Seq<u64>,
    r2: Seq<u64>,
)
    requires
        keys_distinct(s1),
        keys_distinct(s2),
        s1.to_multiset() == s2.to_multiset(),
        is_ranking(score_map(s1), multiplier, r1),
        is_ranking(score_map(s2), multiplier, r2),
    ensures
        r1 == r2,
{
    broadcast use group_to_multiset_ensures;

    let m1 = score_map(s1);
    let m2 = score_map(s2);
    assert forall|b: u64| #[trigger] m1.dom().contains(b) implies m2.dom().contains(b) && m1[b] == m2[b] by {
        let i = choose|i: int| 0 <= i < s1.len() && s1[i].0 == b;
        assert(s1.contains(s1[i]));
        assert(s1.to_multiset().count(s1[i]) > 0);
        assert(s2.contains(s1[i]));
        let j = choose|j: int| 0 <= j < s2.len() && s2[j] == s1[i];
        lemma_score_map_at(s1, i);
        lemma_score_map_at(s2, j);
    }
    assert forall|b: u64| #[trigger] m2.dom().contains(b) implies m1.dom().contains(b) by {
        let j = choose|j: int| 0 <= j < s2.len() && s2[j].0 == b;
        assert(s2.contains(s2[j]));
        assert(s2.to_multiset().count(s2[j]) > 0);
        assert(s1.contains(s2[j]));
        let i = choose|i: int| 0 <= i < s1.len() && s1[i] == s2[j];
        lemma_score_map_at(s1, i);
    }
    assert(m1 =~= m2);
    lemma_ranking_unique(m1, multiplier, r1, r2);
}

/// Along a ranking the derived ranks never decrease.
pub proof fn lemma_ranking_sorted(m: Map<u64, i64>, multiplier: i64, r: Seq<u64>)
    requires
        is_ranking(m, multiplier, r),
    ensures
        forall|i: int, j: int|
            0 <= i <= j < r.len() ==> rank_of(m[#[trigger] r[i]], multiplier) <= rank_of(m[#[trigger] r[j]], multiplier),
{
    assert forall|i: int, j: int| 0 <= i <= j < r.len() implies rank_of(m[#[trigger] r[i]], multiplier) <= rank_of(m[#[trigger] r[j]], multiplier) by {
        if i < j {
            assert(ranks_before(m, multiplier, r[i], r[j]));
        }
    }
}

/// An empty mapping ranks to the empty list, whatever the multiplier.
pub proof fn lemma_ranking_of_empty(multiplier: i64, r: Seq<u64>)
    requires
        is_ranking(score_map(Seq::empty()), multiplier, r),
    ensures
        r == Seq::<u64>::empty(),
{
    if r.len() > 0 {
        assert(r.contains(r[0]));
    }
    assert(r =~= Seq::<u64>::empty());
}

/// A mapping of one bucket ranks to that bucket alone, whatever its score and
/// the multiplier.
pub proof fn lemma_ranking_of_singleton(bucket: u64, raw: i64, multiplier: i64, r: Seq<u64>)
    requires
        is_ranking(score_map(seq![(bucket, raw)]), multiplier, r),
    ensures
        r == seq![bucket],
{
    let s = seq![(bucket, raw)];
    assert(s[0].0 == bucket);
    assert(score_map(s).dom().contains(bucket));
    assert(r.contains(bucket));
    assert forall|i: int| 0 <= i < r.len() implies #[trigger] r[i] == bucket by {
        assert(r.contains(r[i]));
    }
    if r.len() > 1 {
        assert(ranks_before(score_map(s), multiplier, r[0], r[1]));
    }
    assert(r =~= seq![bucket]);
}

} // verus!
