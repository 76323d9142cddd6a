//! Topology and sequence statistics over a graph: N50 of the segment
//! lengths, base composition counts, a fixed-bucket length histogram,
//! degree distributions, path totals, and connected components.

use crate::gfa::{sat64, GfaGraph, GraphV, SegmentV};
use vstd::prelude::*;
use vstd::seq_lib::lemma_sorted_unique;
use vstd::relations::{sorted_by, total_ordering};
use vstd::slice::slice_to_vec;
use vstd::pervasive::VecAdditionalExecFns;

verus! {

// ------------------------------------------------------------------
// N50
// ------------------------------------------------------------------
/// Descending order on lengths.
pub open spec fn desc_leq() -> spec_fn(usize, usize) -> bool {
    |a: usize, b: usize| a >= b
}

pub proof fn lemma_desc_total()
    ensures
        total_ordering(desc_leq()),
{
    assert(forall|a: usize| #[trigger] desc_leq()(a, a));
    assert(forall|a: usize, b: usize, c: usize|
        #[trigger] desc_leq()(a, b) && #[trigger] desc_leq()(b, c) ==> desc_leq()(a, c));
    assert(forall|a: usize, b: usize|
        #[trigger] desc_leq()(a, b) && #[trigger] desc_leq()(b, a) ==> a == b);
    assert(forall|a: usize, b: usize| #[trigger] desc_leq()(a, b) || #[trigger] desc_leq()(b, a));
}

/// The sum of all lengths, as a mathematical integer.
pub open spec fn sum_of(s: Seq<usize>) -> int
    decreases s.len(),
{
    if s.len() == 0 {
        0
    } else {
        s[0] + sum_of(s.drop_first())
    }
}

pub proof fn lemma_sum_of_nonneg(s: Seq<usize>)
    ensures
        sum_of(s) >= 0,
    decreases s.len(),
{
    if s.len() > 0 {
        lemma_sum_of_nonneg(s.drop_first());
    }
}

/// The sum of the first `k` lengths.
pub open spec fn prefix_sum(s: Seq<usize>, k: int) -> int
    decreases k,
{
    if k <= 0 {
        0
    } else {
        prefix_sum(s, k - 1) + s[k - 1]
    }
}

/// The N50 scan over a descending-sorted list: walking from the largest
/// length with a running sum that starts at `acc`, the first length at
/// which the sum reaches `half`.
pub open spec fn n50_scan(s: Seq<usize>, acc: int, half: int) -> usize
    decreases s.len(),
{
    if s.len() == 0 {
        0
    } else if acc + s[0] >= half {
        s[0]
    } else {
        n50_scan(s.drop_first(), acc + s[0], half)
    }
}

/// The 1-based rank at which the scan stops (the L50 when it starts at 0).
pub open spec fn n50_rank(s: Seq<usize>, acc: int, half: int) -> int
    decreases s.len(),
{
    if s.len() == 0 {
        0
    } else if acc + s[0] >= half {
        1
    } else {
        1 + n50_rank(s.drop_first(), acc + s[0], half)
    }
}

/// The N50 of a list of lengths: sort descending, accumulate until the
/// running sum first reaches half the total — rounded up, so an odd
/// total of 7 demands 4 — and take the length there; 0 for an empty
/// list.
pub open spec fn spec_n50(lengths: Seq<usize>) -> usize {
    if lengths.len() == 0 {
        0
    } else {
        let s = lengths.sort_by(desc_leq());
        n50_scan(s, 0, (sum_of(s) + 1) / 2)
    }
}

/// Swapping two positions of a sequence keeps its multiset of values.
pub proof fn lemma_swap_multiset(s: Seq<usize>, i: int, j: int)
    requires
        0 <= i < j < s.len(),
    ensures
        s.update(i, s[j]).update(j, s[i]).to_multiset() == s.to_multiset(),
{
    broadcast use vstd::seq_lib::to_multiset_update;
    broadcast use vstd::seq_lib::group_to_multiset_ensures;
    broadcast use vstd::multiset::group_multiset_axioms;

    let x = s[i];
    let y = s[j];
    let s1 = s.update(i, y);
    let s2 = s1.update(j, x);
    assert(s.contains(x));
    assert(s.to_multiset().count(x) > 0);
    assert(s1[j] == y);
    assert(s1.to_multiset() == s.to_multiset().insert(y).remove(x));
    assert(s2.to_multiset() == s1.to_multiset().insert(x).remove(y));
    assert(s1.to_multiset().count(y) > 0);
    assert(s2.to_multiset() =~= s.to_multiset());
}

/// Sorts a copy of the lengths in descending order.
fn sort_desc(v: &mut Vec<usize>)
    ensures
        sorted_by(final(v)@, desc_leq()),
        final(v)@.to_multiset() == old(v)@.to_multiset(),
        final(v)@.len() == old(v)@.len(),
{
    let n = v.len();
    if n <= 1 {
        proof {
            assert(sorted_by(v@, desc_leq()));
        }
        return ;
    }
    let mut i: usize = 1;
    while i < n
        invariant
            1 <= i <= n,
            n == v@.len(),
            v@.to_multiset() == old(v)@.to_multiset(),
            forall|a: int, b: int| 0 <= a < b < i ==> v@[a] >= v@[b],
        decreases n - i,
    {
        let mut j: usize = i;
        while j > 0 && v[j - 1] < v[j]
            invariant
                0 <= j <= i < n,
                n == v@.len(),
                v@.to_multiset() == old(v)@.to_multiset(),
                forall|a: int, b: int| 0 <= a < b <= i && b != j ==> v@[a] >= v@[b],
            decreases j,
        {
            let x = v[j - 1];
            let y = v[j];
            let ghost before = v@;
            v.set(j - 1, y);
            v.set(j, x);
            proof {
                assert(v@ == before.update(j - 1, y).update(j as int, x));
                lemma_swap_multiset(before, j - 1, j as int);
                assert forall|a: int, b: int|
                    0 <= a < b <= i && b != j - 1 implies v@[a] >= v@[b] by {
                    if b == j {
                        if a == j - 1 {
                        } else {
                            assert(before[a] >= before[j - 1]);
                        }
                    } else if b > j {
                        if a == j - 1 {
                            assert(before[j as int] >= before[b]);
                        } else if a == j {
                            assert(before[j - 1] >= before[b]);
                        } else {
                            assert(before[a] >= before[b]);
                        }
                    } else {
                        assert(before[a] >= before[b]);
                    }
                }
            }
            j = j - 1;
        }
        proof {
            assert forall|a: int, b: int| 0 <= a < b < i + 1 implies v@[a] >= v@[b] by {
                if b == j && j > 0 {
                    if a == j - 1 {
                        assert(v@[j - 1] >= v@[j as int]);
                    } else {
                        assert(v@[a] >= v@[j - 1]);
                        assert(v@[j - 1] >= v@[j as int]);
                    }
                }
            }
        }
        i = i + 1;
    }
    proof {
        assert(sorted_by(v@, desc_leq()));
    }
}

pub proof fn lemma_sum_fits(s: Seq<usize>)
    requires
        s.len() <= usize::MAX,
    ensures
        sum_of(s) <= s.len() * (usize::MAX as int),
        sum_of(s) < u128::MAX,
    decreases s.len(),
{
    if s.len() == 0 {
    } else {
        assert(s.drop_first().len() <= usize::MAX);
        lemma_sum_fits(s.drop_first());
        assert(sum_of(s) <= s.len() * (usize::MAX as int)) by (nonlinear_arith)
            requires
                sum_of(s) == s[0] + sum_of(s.drop_first()),
                s[0] <= usize::MAX as int,
                sum_of(s.drop_first()) <= (s.len() - 1) * (usize::MAX as int),
                s.len() >= 1,
        ;
        assert(s.len() * (usize::MAX as int) < u128::MAX) by (nonlinear_arith)
            requires
                s.len() <= u64::MAX as int,
                usize::MAX as int <= u64::MAX as int,
        ;
    }
}

/// The N50 of these lengths: over the descending-sorted order, the
/// length at which the cumulative sum first reaches half the total,
/// rounded up; 0 when the list is empty.
pub fn compute_n50(lengths: &[usize]) -> (r: usize)
    ensures
        r == spec_n50(lengths@),
{
    if lengths.len() == 0 {
        return 0;
    }
    let mut sorted = slice_to_vec(lengths);
    sort_desc(&mut sorted);
    proof {
        lemma_desc_total();
        lengths@.lemma_sort_by_ensures(desc_leq());
        lemma_sorted_unique(sorted@, lengths@.sort_by(desc_leq()), desc_leq());
        lemma_sum_fits(sorted@);
        lemma_sum_of_nonneg(sorted@);
    }
    let ghost sv = sorted@;
    let n = sorted.len();
    let mut total: u128 = 0;
    let mut i: usize = 0;
    proof {
        assert(sv.skip(0) =~= sv);
    }
    while i < n
        invariant
            0 <= i <= n,
            n == sorted@.len(),
            sv == sorted@,
            sum_of(sv) < u128::MAX,
            total + sum_of(sv.skip(i as int)) == sum_of(sv),
            total >= 0,
        decreases n - i,
    {
        proof {
            lemma_sum_of_nonneg(sv.skip(i as int).drop_first());
            assert(sv.skip(i as int)[0] == sv[i as int]);
            assert(sv.skip(i as int).drop_first() =~= sv.skip(i + 1));
        }
        total = total + (sorted[i] as u128);
        i = i + 1;
    }
    proof {
        assert(sv.skip(n as int) =~= Seq::<usize>::empty());
    }
    let half = total / 2 + total % 2;
    let mut cum: u128 = 0;
    let mut k: usize = 0;
    proof {
        assert(sv.skip(0) =~= sv);
    }
    while k < n
        invariant
            0 <= k <= n,
            n == sorted@.len(),
            sv == sorted@,
            lengths@.len() > 0,
            sv == lengths@.sort_by(desc_leq()),
            half == (sum_of(sv) + 1) / 2,
            sum_of(sv) < u128::MAX,
            cum + sum_of(sv.skip(k as int)) == sum_of(sv),
            cum >= 0,
            n50_scan(sv, 0, half as int) == n50_scan(sv.skip(k as int), cum as int, half as int),
        decreases n - k,
    {
        proof {
            lemma_sum_of_nonneg(sv.skip(k as int).drop_first());
            assert(sv.skip(k as int)[0] == sv[k as int]);
            assert(sv.skip(k as int).drop_first() =~= sv.skip(k + 1));
        }
        let len = sorted[k];
        if cum + (len as u128) >= half {
            return len;
        }
        cum = cum + (len as u128);
        k = k + 1;
    }
    proof {
        assert(sv.skip(n as int) =~= Seq::<usize>::empty());
    }
    0
}

/// Law: for a non-empty list of lengths, over the descending-sorted order
/// the N50 is the length at the first rank whose cumulative sum reaches
/// half the total, rounded up; no shorter prefix reaches it, and the N50
/// is one of the given lengths.
pub proof fn lemma_n50_invariant(lengths: Seq<usize>)
    requires
        lengths.len() > 0,
    ensures
        ({
            let s = lengths.sort_by(desc_leq());
            let half = (sum_of(s) + 1) / 2;
            let k = n50_rank(s, 0, half);
            &&& 1 <= k <= s.len()
            &&& prefix_sum(s, k) >= half
            &&& forall|j: int| 1 <= j < k ==> prefix_sum(s, j) < half
            &&& spec_n50(lengths) == s[k - 1]
            &&& lengths.to_multiset().contains(spec_n50(lengths))
        }),
{
    broadcast use vstd::seq_lib::group_to_multiset_ensures;
    broadcast use vstd::multiset::group_multiset_axioms;

    lemma_desc_total();
    lengths.lemma_sort_by_ensures(desc_leq());
    let s = lengths.sort_by(desc_leq());
    assert(s.to_multiset().len() == lengths.to_multiset().len());
    assert(s.len() == lengths.len());
    let half = (sum_of(s) + 1) / 2;
    lemma_sum_of_nonneg(s);
    lemma_scan_props(s, 0, half);
    let k = n50_rank(s, 0, half);
    assert(s.to_multiset().contains(s[k - 1]));
}

/// The scan over a non-empty list whose remaining total reaches `half`
/// stops at a well-defined rank: the cumulative sum reaches `half` there
/// and at no earlier rank, and the scan's value is the length at that
/// rank.
pub proof fn lemma_scan_props(s: Seq<usize>, acc: int, half: int)
    requires
        s.len() > 0,
        acc + sum_of(s) >= half,
    ensures
        ({
            let k = n50_rank(s, acc, half);
            &&& 1 <= k <= s.len()
            &&& acc + prefix_sum(s, k) >= half
            &&& forall|j: int| 1 <= j < k ==> acc + prefix_sum(s, j) < half
            &&& n50_scan(s, acc, half) == s[k - 1]
        }),
    decreases s.len(),
{
    reveal_with_fuel(prefix_sum, 3);
    reveal_with_fuel(sum_of, 3);
    let k = n50_rank(s, acc, half);
    if acc + s[0] >= half {
        assert(prefix_sum(s, 1) == s[0]);
    } else {
        let t = s.drop_first();
        assert(s.len() > 1) by {
            if s.len() == 1 {
                assert(sum_of(s) == s[0]);
            }
        }
        lemma_scan_props(t, acc + s[0], half);
        let k2 = n50_rank(t, acc + s[0], half);
        assert(k == k2 + 1);
        lemma_prefix_shift(s, k2 + 1);
        assert forall|j: int| 1 <= j < k implies acc + prefix_sum(s, j) < half by {
            if j == 1 {
                assert(prefix_sum(s, 1) == s[0]);
            } else {
                lemma_prefix_shift(s, j);
                assert(acc + s[0] + prefix_sum(t, j - 1) < half);
            }
        }
        assert(s[k - 1] == t[k2 - 1]);
    }
}

/// The prefix sum of a list equals its head plus the prefix sum of its
/// tail, one rank shorter.
pub proof fn lemma_prefix_shift(s: Seq<usize>, k: int)
    requires
        1 <= k <= s.len(),
    ensures
        prefix_sum(s, k) == s[0] + prefix_sum(s.drop_first(), k - 1),
    decreases k,
{
    reveal_with_fuel(prefix_sum, 3);
    if k == 1 {
    } else {
        lemma_prefix_shift(s, k - 1);
        assert(s.drop_first()[k - 2] == s[k - 1]);
        assert(prefix_sum(s, k) == prefix_sum(s, k - 1) + s[k - 1]);
        assert(prefix_sum(s.drop_first(), k - 1) == prefix_sum(s.drop_first(), k - 2)
            + s.drop_first()[k - 2]);
    }
}

// ------------------------------------------------------------------
// Base composition
// ------------------------------------------------------------------
/// Whether a byte is a G or C base, either case.
pub open spec fn is_gc(b: u8) -> bool {
    b == 71 || b == 103 || b == 67 || b == 99
}

/// Whether a byte is any of the four bases A, C, G, T, either case.
pub open spec fn is_acgt(b: u8) -> bool {
    is_gc(b) || b == 65 || b == 97 || b == 84 || b == 116
}

/// The number of G/C bases in a sequence.
pub open spec fn count_gc(s: Seq<u8>) -> int
    decreases s.len(),
{
    if s.len() == 0 {
        0
    } else {
        count_gc(s.drop_last()) + if is_gc(s.last()) {
            1int
        } else {
            0int
        }
    }
}

/// The number of A/C/G/T bases in a sequence.
pub open spec fn count_acgt(s: Seq<u8>) -> int
    decreases s.len(),
{
    if s.len() == 0 {
        0
    } else {
        count_acgt(s.drop_last()) + if is_acgt(s.last()) {
            1int
        } else {
            0int
        }
    }
}

pub proof fn lemma_counts_bounded(s: Seq<u8>)
    ensures
        0 <= count_gc(s) <= s.len(),
        0 <= count_acgt(s) <= s.len(),
    decreases s.len(),
{
    if s.len() > 0 {
        lemma_counts_bounded(s.drop_last());
    }
}

/// The G/C count over all segment sequences.
pub open spec fn total_gc(segs: Seq<SegmentV>) -> int
    decreases segs.len(),
{
    if segs.len() == 0 {
        0
    } else {
        total_gc(segs.drop_last()) + count_gc(segs.last().sequence)
    }
}

/// The A/C/G/T count over all segment sequences.
pub open spec fn total_acgt(segs: Seq<SegmentV>) -> int
    decreases segs.len(),
{
    if segs.len() == 0 {
        0
    } else {
        total_acgt(segs.drop_last()) + count_acgt(segs.last().sequence)
    }
}

pub proof fn lemma_totals_nonneg(segs: Seq<SegmentV>)
    ensures
        total_gc(segs) >= 0,
        total_acgt(segs) >= 0,
    decreases segs.len(),
{
    if segs.len() > 0 {
        lemma_totals_nonneg(segs.drop_last());
        lemma_counts_bounded(segs.last().sequence);
    }
}

/// The G/C and A/C/G/T base counts of one sequence.
fn base_counts(s: &[u8]) -> (r: (u64, u64))
    ensures
        r.0 == count_gc(s@),
        r.1 == count_acgt(s@),
{
    let n = s.len();
    let mut gc: u64 = 0;
    let mut ac: u64 = 0;
    let mut i: usize = 0;
    proof {
        assert(s@.subrange(0, 0) =~= Seq::<u8>::empty());
    }
    while i < n
        invariant
            0 <= i <= n,
            n == s@.len(),
            gc == count_gc(s@.subrange(0, i as int)),
            ac == count_acgt(s@.subrange(0, i as int)),
        decreases n - i,
    {
        proof {
            lemma_counts_bounded(s@.subrange(0, i as int));
            let next = s@.subrange(0, i + 1);
            assert(next.drop_last() =~= s@.subrange(0, i as int));
            assert(next.last() == s@[i as int]);
        }
        let b = s[i];
        if b == 71 || b == 103 || b == 67 || b == 99 {
            gc = gc + 1;
            ac = ac + 1;
        } else if b == 65 || b == 97 || b == 84 || b == 116 {
            ac = ac + 1;
        }
        i = i + 1;
    }
    proof {
        assert(s@.subrange(0, n as int) =~= s@);
    }
    (gc, ac)
}

/// The G/C and A/C/G/T base counts over every segment sequence of the
/// graph, each saturating at the largest 64-bit value (which no in-memory
/// graph can reach).  The quotient of the two is the GC content.
pub fn compute_gc_counts(graph: &GfaGraph) -> (r: (u64, u64))
    ensures
        r.0 == sat64(total_gc(graph@.segments)),
        r.1 == sat64(total_acgt(graph@.segments)),
{
    let n = graph.segments.len();
    let mut gc: u64 = 0;
    let mut ac: u64 = 0;
    let mut i: usize = 0;
    proof {
        assert(graph@.segments.subrange(0, 0) =~= Seq::<SegmentV>::empty());
    }
    while i < n
        invariant
            0 <= i <= n,
            n == graph.segments@.len(),
            gc == sat64(total_gc(graph@.segments.subrange(0, i as int))),
            ac == sat64(total_acgt(graph@.segments.subrange(0, i as int))),
        decreases n - i,
    {
        proof {
            assert(graph@.segments[i as int] == graph.segments@[i as int]@);
            lemma_totals_nonneg(graph@.segments.subrange(0, i as int));
            let next = graph@.segments.subrange(0, i + 1);
            assert(next.drop_last() =~= graph@.segments.subrange(0, i as int));
            assert(next.last() == graph@.segments[i as int]);
        }
        let (sgc, sac) = base_counts(graph.segments[i].sequence.as_slice());
        proof {
            lemma_counts_bounded(graph@.segments[i as int].sequence);
        }
        gc = if gc > u64::MAX - sgc {
            u64::MAX
        } else {
            gc + sgc
        };
        ac = if ac > u64::MAX - sac {
            u64::MAX
        } else {
            ac + sac
        };
        i = i + 1;
    }
    proof {
        assert(graph@.segments.subrange(0, n as int) =~= graph@.segments);
    }
    (gc, ac)
}

// ------------------------------------------------------------------
// Length histogram
// ------------------------------------------------------------------
/// The lower bound of histogram bucket `k`.
pub open spec fn bucket_lo(k: int) -> int {
    if k == 0 {
        0
    } else if k == 1 {
        100
    } else if k == 2 {
        500
    } else if k == 3 {
        1000
    } else if k == 4 {
        5000
    } else if k == 5 {
        10000
    } else if k == 6 {
        50000
    } else if k == 7 {
        100000
    } else if k == 8 {
        500000
    } else {
        1000000
    }
}

/// The exclusive upper bound of histogram bucket `k`; the last bucket is
/// unbounded above, so every possible length falls somewhere.
pub open spec fn bucket_hi(k: int) -> int {
    if k == 8 {
        1000000
    } else if k == 9 {
        usize::MAX as int + 1
    } else {
        bucket_lo(k + 1)
    }
}

/// The label of histogram bucket `k`.
pub open spec fn bucket_label(k: int) -> Seq<char> {
    if k == 0 {
        "0-100"@
    } else if k == 1 {
        "100-500"@
    } else if k == 2 {
        "500-1K"@
    } else if k == 3 {
        "1K-5K"@
    } else if k == 4 {
        "5K-10K"@
    } else if k == 5 {
        "10K-50K"@
    } else if k == 6 {
        "50K-100K"@
    } else if k == 7 {
        "100K-500K"@
    } else if k == 8 {
        "500K-1M"@
    } else {
        ">1M"@
    }
}

/// How many of the first `i` lengths fall into bucket `k`.
pub open spec fn bucket_tally(lengths: Seq<usize>, k: int, i: int) -> int
    decreases i,
{
    if i <= 0 {
        0
    } else {
        bucket_tally(lengths, k, i - 1) + if bucket_lo(k) <= lengths[i - 1] < bucket_hi(k) {
            1int
        } else {
            0int
        }
    }
}

pub proof fn lemma_bucket_tally_bounded(lengths: Seq<usize>, k: int, i: int)
    requires
        0 <= i <= lengths.len(),
    ensures
        0 <= bucket_tally(lengths, k, i) <= i,
    decreases i,
{
    if i > 0 {
        lemma_bucket_tally_bounded(lengths, k, i - 1);
    }
}

/// The segment-length histogram: ten fixed half-open buckets, each always
/// present with its label and the count of lengths falling inside it.
pub fn compute_length_histogram(lengths: &[usize]) -> (r: Vec<(String, usize)>)
    ensures
        r@.len() == 10,
        forall|k: int|
            0 <= k < 10 ==> (#[trigger] r@[k]).1 == bucket_tally(lengths@, k, lengths@.len() as int),
        forall|k: int| 0 <= k < 10 ==> (#[trigger] r@[k]).0@ == bucket_label(k),
{
    let mut r: Vec<(String, usize)> = Vec::new();
    r.push(("0-100".to_owned(), 0));
    r.push(("100-500".to_owned(), 0));
    r.push(("500-1K".to_owned(), 0));
    r.push(("1K-5K".to_owned(), 0));
    r.push(("5K-10K".to_owned(), 0));
    r.push(("10K-50K".to_owned(), 0));
    r.push(("50K-100K".to_owned(), 0));
    r.push(("100K-500K".to_owned(), 0));
    r.push(("500K-1M".to_owned(), 0));
    r.push((">1M".to_owned(), 0));
    let n = lengths.len();
    let mut i: usize = 0;
    while i < n
        invariant
            0 <= i <= n,
            n == lengths@.len(),
            r@.len() == 10,
            forall|k: int| 0 <= k < 10 ==> (#[trigger] r@[k]).1 == bucket_tally(lengths@, k, i as int),
            forall|k: int| 0 <= k < 10 ==> (#[trigger] r@[k]).0@ == bucket_label(k),
        decreases n - i,
    {
        let len = lengths[i];
        let bucket: usize = if len < 100 {
            0
        } else if len < 500 {
            1
        } else if len < 1000 {
            2
        } else if len < 5000 {
            3
        } else if len < 10000 {
            4
        } else if len < 50000 {
            5
        } else if len < 100000 {
            6
        } else if len < 500000 {
            7
        } else if len < 1000000 {
            8
        } else {
            9
        };
        proof {
            lemma_bucket_tally_bounded(lengths@, bucket as int, i as int);
        }
        let ghost prev = r@;
        let label_keep = r[bucket].0.clone();
        let cnt = r[bucket].1;
        r.set(bucket, (label_keep, cnt + 1));
        proof {
            assert(r@[bucket as int].0@ == prev[bucket as int].0@);
        }
        proof {
            assert forall|k: int| 0 <= k < 10 implies (#[trigger] r@[k]).1 == bucket_tally(
                lengths@,
                k,
                i + 1,
            ) by {
                assert(bucket_tally(lengths@, k, i + 1) == bucket_tally(lengths@, k, i as int) + (
                if bucket_lo(k) <= lengths@[i as int] < bucket_hi(k) {
                    1int
                } else {
                    0int
                }));
            }
        }
        i = i + 1;
    }
    r
}


// ------------------------------------------------------------------
// Path totals
// ------------------------------------------------------------------
/// The total number of steps over all paths, as a mathematical integer.
pub open spec fn total_steps(paths: Seq<crate::gfa::GfaPathV>) -> int
    decreases paths.len(),
{
    if paths.len() == 0 {
        0
    } else {
        total_steps(paths.drop_last()) + paths.last().steps.len()
    }
}

/// The total sequence length traversed by all paths: for each step, the
/// length of the segment it names, or zero when the graph holds no such
/// segment.
pub open spec fn total_path_seq(g: GraphV) -> int
    decreases g.paths.len(),
{
    if g.paths.len() == 0 {
        0
    } else {
        total_path_seq(GraphV { paths: g.paths.drop_last(), ..g }) + crate::index::spec_prefix_len(
            g.segments,
            g.paths.last().steps,
            g.paths.last().steps.len() as int,
        )
    }
}

pub proof fn lemma_path_totals_nonneg(g: GraphV)
    ensures
        total_steps(g.paths) >= 0,
        total_path_seq(g) >= 0,
    decreases g.paths.len(),
{
    if g.paths.len() > 0 {
        lemma_path_totals_nonneg(GraphV { paths: g.paths.drop_last(), ..g });
        crate::index::lemma_prefix_len_nonneg(
            g.segments,
            g.paths.last().steps,
            g.paths.last().steps.len() as int,
        );
    }
}

/// The total step count and total traversed sequence length over all
/// paths, each saturating at the largest 64-bit value; a step whose
/// segment the graph does not hold contributes zero length.
pub fn compute_path_totals(graph: &GfaGraph) -> (r: (u64, u64))
    ensures
        r.0 == sat64(total_steps(graph@.paths)),
        r.1 == sat64(total_path_seq(graph@)),
{
    let n = graph.paths.len();
    let mut steps: u64 = 0;
    let mut seqlen: u64 = 0;
    let mut i: usize = 0;
    proof {
        assert(graph@.paths.subrange(0, 0) =~= Seq::<crate::gfa::GfaPathV>::empty());
        assert((GraphV { paths: graph@.paths.subrange(0, 0), ..graph@ }).paths.len() == 0);
    }
    while i < n
        invariant
            0 <= i <= n,
            n == graph.paths@.len(),
            steps == sat64(total_steps(graph@.paths.subrange(0, i as int))),
            seqlen == sat64(total_path_seq((GraphV { paths: graph@.paths.subrange(0, i as int), ..graph@ }))),
        decreases n - i,
    {
        let p = &graph.paths[i];
        proof {
            assert(graph@.paths[i as int] == graph.paths@[i as int]@);
            lemma_path_totals_nonneg(GraphV { paths: graph@.paths.subrange(0, i as int), ..graph@ });
            crate::index::lemma_prefix_len_nonneg(
                graph@.segments,
                graph@.paths[i as int].steps,
                graph@.paths[i as int].steps.len() as int,
            );
            let next = graph@.paths.subrange(0, i + 1);
            assert(next.drop_last() =~= graph@.paths.subrange(0, i as int));
            assert(next.last() == graph@.paths[i as int]);
            assert((GraphV { paths: next, ..graph@ }).paths.drop_last() =~= graph@.paths.subrange(
                0,
                i as int,
            ));
            assert((GraphV { paths: (GraphV { paths: next, ..graph@ }).paths.drop_last(), ..graph@ })
                == (GraphV { paths: graph@.paths.subrange(0, i as int), ..graph@ }));
        }
        let sc = p.steps.len() as u64;
        steps = if steps > u64::MAX - sc {
            u64::MAX
        } else {
            steps + sc
        };
        let pl = crate::index::path_total_length(graph, &p.steps);
        proof {
            crate::index::lemma_prefix_len_nonneg(
                graph@.segments,
                p@.steps,
                p@.steps.len() as int,
            );
        }
        seqlen = if seqlen > u64::MAX - pl {
            u64::MAX
        } else {
            seqlen + pl
        };
        i = i + 1;
    }
    proof {
        assert(graph@.paths.subrange(0, n as int) =~= graph@.paths);
        assert((GraphV { paths: graph@.paths.subrange(0, n as int), ..graph@ }) == graph@);
    }
    (steps, seqlen)
}

// ------------------------------------------------------------------
// Degree distributions
// ------------------------------------------------------------------
/// The predicate "this counter is keyed by `name`".
pub open spec fn cnt_keyed(name: Seq<u8>) -> spec_fn((Seq<u8>, u64)) -> bool {
    |c: (Seq<u8>, u64)| c.0 == name
}

/// A 64-bit count incremented by one, saturating at the largest value.
pub open spec fn bump64(c: u64) -> u64 {
    if c < u64::MAX {
        (c + 1) as u64
    } else {
        c
    }
}

/// One counter per segment, starting at zero.
pub open spec fn spec_init_cnts(segs: Seq<SegmentV>) -> Seq<(Seq<u8>, u64)> {
    Seq::new(segs.len(), |i: int| (segs[i].name, 0u64))
}

/// Bumps the counter keyed by this name, creating it at one when absent.
pub open spec fn spec_bump(cnts: Seq<(Seq<u8>, u64)>, name: Seq<u8>) -> Seq<(Seq<u8>, u64)> {
    let i = crate::text::find_index(cnts, cnt_keyed(name));
    if 0 <= i < cnts.len() {
        cnts.update(i, (cnts[i].0, bump64(cnts[i].1)))
    } else {
        cnts.push((name, 1u64))
    }
}

/// Bumps one counter per name, from position `i` on.
pub open spec fn spec_count_fold(
    acc: Seq<(Seq<u8>, u64)>,
    names: Seq<Seq<u8>>,
    i: int,
) -> Seq<(Seq<u8>, u64)>
    decreases names.len() - i,
{
    if i < 0 || i >= names.len() {
        acc
    } else {
        spec_count_fold(spec_bump(acc, names[i]), names, i + 1)
    }
}

/// The `to` endpoints of all links, in order.
pub open spec fn link_tos(g: GraphV) -> Seq<Seq<u8>> {
    Seq::new(g.links.len(), |i: int| g.links[i].to_segment)
}

/// The `from` endpoints of all links, in order.
pub open spec fn link_froms(g: GraphV) -> Seq<Seq<u8>> {
    Seq::new(g.links.len(), |i: int| g.links[i].from_segment)
}

/// The in-degree counters of a graph: every segment starts at zero, and
/// every link bumps its `to` endpoint, known segment or not.
pub open spec fn spec_in_cnts(g: GraphV) -> Seq<(Seq<u8>, u64)> {
    spec_count_fold(spec_init_cnts(g.segments), link_tos(g), 0)
}

/// The out-degree counters of a graph, over the `from` endpoints.
pub open spec fn spec_out_cnts(g: GraphV) -> Seq<(Seq<u8>, u64)> {
    spec_count_fold(spec_init_cnts(g.segments), link_froms(g), 0)
}

/// The degree values of the counters, in order.
pub open spec fn deg_vals(cnts: Seq<(Seq<u8>, u64)>) -> Seq<u64> {
    Seq::new(cnts.len(), |i: int| cnts[i].1)
}

/// How many of the first `i` values equal `d`.
pub open spec fn count_val(vals: Seq<u64>, d: u64, i: int) -> int
    decreases i,
{
    if i <= 0 {
        0
    } else {
        count_val(vals, d, i - 1) + if vals[i - 1] == d {
            1int
        } else {
            0int
        }
    }
}

pub proof fn lemma_count_val_bounded(vals: Seq<u64>, d: u64, i: int)
    requires
        0 <= i <= vals.len(),
    ensures
        0 <= count_val(vals, d, i) <= i,
    decreases i,
{
    if i > 0 {
        lemma_count_val_bounded(vals, d, i - 1);
    }
}

/// The sum of the first `i` values, as a mathematical integer.
pub open spec fn sum_vals(vals: Seq<u64>, i: int) -> int
    decreases i,
{
    if i <= 0 {
        0
    } else {
        sum_vals(vals, i - 1) + vals[i - 1]
    }
}

/// The sum over a distribution table of degree times count.
pub open spec fn sum_table(t: Seq<(u64, usize)>) -> int
    decreases t.len(),
{
    if t.len() == 0 {
        0
    } else {
        sum_table(t.drop_last()) + t.last().0 * t.last().1
    }
}

pub proof fn lemma_sum_table_bump(t: Seq<(u64, usize)>, k: int)
    requires
        0 <= k < t.len(),
        t[k].1 < usize::MAX,
    ensures
        sum_table(t.update(k, (t[k].0, (t[k].1 + 1) as usize))) == sum_table(t) + t[k].0,
    decreases t.len(),
{
    let t2 = t.update(k, (t[k].0, (t[k].1 + 1) as usize));
    if k == t.len() - 1 {
        assert(t2.drop_last() =~= t.drop_last());
        assert(t2.last().0 * t2.last().1 == t.last().0 * t.last().1 + t.last().0)
            by (nonlinear_arith)
            requires
                t2.last().0 == t.last().0,
                t2.last().1 == t.last().1 + 1,
        ;
    } else {
        lemma_sum_table_bump(t.drop_last(), k);
        assert(t2.drop_last() =~= t.drop_last().update(k, (t[k].0, (t[k].1 + 1) as usize)));
        assert(t2.last() == t.last());
    }
}

pub proof fn lemma_sum_table_insert(t: Seq<(u64, usize)>, p: int, row: (u64, usize))
    requires
        0 <= p <= t.len(),
    ensures
        sum_table(t.insert(p, row)) == sum_table(t) + row.0 * row.1,
    decreases t.len(),
{
    let t2 = t.insert(p, row);
    if p == t.len() {
        assert(t2 =~= t.push(row));
        assert(t2.drop_last() =~= t);
        assert(t2.last() == row);
    } else {
        lemma_sum_table_insert(t.drop_last(), p, row);
        assert(t2.drop_last() =~= t.drop_last().insert(p, row));
        assert(t2.last() == t.last());
    }
}

/// What it means for `t` to be the distribution table of `vals`: each
/// degree value appears exactly once as a key, the keys strictly
/// ascending, with the number of values equal to it as its count, and
/// degree times count sums to the total of all values.
pub open spec fn dist_of(t: Seq<(u64, usize)>, vals: Seq<u64>) -> bool {
    &&& forall|a: int, b: int|
        0 <= a < b < t.len() ==> (#[trigger] t[a]).0 < (#[trigger] t[b]).0
    &&& forall|k: int|
        0 <= k < t.len() ==> (#[trigger] t[k]).1 == count_val(vals, t[k].0, vals.len() as int)
            && t[k].1 >= 1
    &&& forall|i: int|
        #![trigger vals[i]]
        0 <= i < vals.len() ==> exists|k: int| 0 <= k < t.len() && (#[trigger] t[k]).0 == vals[i]
    &&& sum_table(t) == sum_vals(vals, vals.len() as int)
}

/// The distribution table of a list of degree values: one row per
/// distinct value, counting its occurrences, the rows in ascending
/// degree order.
pub fn distribution(vals: &Vec<u64>) -> (t: Vec<(u64, usize)>)
    ensures
        dist_of(t@, vals@),
{
    let n = vals.len();
    let mut t: Vec<(u64, usize)> = Vec::new();
    let mut i: usize = 0;
    while i < n
        invariant
            0 <= i <= n,
            n == vals@.len(),
            forall|a: int, b: int|
                0 <= a < b < t@.len() ==> (#[trigger] t@[a]).0 < (#[trigger] t@[b]).0,
            forall|k: int|
                0 <= k < t@.len() ==> (#[trigger] t@[k]).1 == count_val(vals@, t@[k].0, i as int)
                    && 1 <= t@[k].1 <= i,
            forall|j: int|
                #![trigger vals@[j]]
                0 <= j < i ==> exists|k: int|
                    0 <= k < t@.len() && (#[trigger] t@[k]).0 == vals@[j],
            sum_table(t@) == sum_vals(vals@, i as int),
        decreases n - i,
    {
        let d = vals[i];
        let m = t.len();
        let mut k: usize = 0;
        while k < m && t[k].0 < d
            invariant
                0 <= k <= m,
                m == t@.len(),
                forall|j: int| 0 <= j < k ==> (#[trigger] t@[j]).0 < d,
            decreases m - k,
        {
            k = k + 1;
        }
        let ghost prev = t@;
        let found = k < m && t[k].0 == d;
        if found {
            let c = t[k].1;
            proof {
                lemma_count_val_bounded(vals@, d, i as int);
            }
            t.set(k, (d, c + 1));
            proof {
                assert(t@ =~= prev.update(k as int, (d, (c + 1) as usize)));
                assert(prev[k as int].0 == d);
                lemma_sum_table_bump(prev, k as int);
                assert forall|a: int, b: int|
                    0 <= a < b < t@.len() implies (#[trigger] t@[a]).0 < (#[trigger] t@[b]).0 by {
                    assert(t@[a].0 == prev[a].0 && t@[b].0 == prev[b].0);
                }
            }
        } else {
            proof {
                assert forall|j: int| 0 <= j < prev.len() implies (#[trigger] prev[j]).0 != d by {
                    if j >= k {
                        if j > k {
                            assert(prev[k as int].0 < prev[j].0);
                        }
                    }
                }
            }
            t.insert(k, (d, 1));
            proof {
                assert(t@ =~= prev.insert(k as int, (d, 1usize)));
                lemma_sum_table_insert(prev, k as int, (d, 1usize));
                assert forall|a: int, b: int|
                    0 <= a < b < t@.len() implies (#[trigger] t@[a]).0 < (#[trigger] t@[b]).0 by {
                    if b < k {
                        assert(t@[a] == prev[a] && t@[b] == prev[b]);
                    } else if b == k {
                        assert(t@[a] == prev[a]);
                        assert(prev[a].0 < d);
                    } else {
                        assert(t@[b] == prev[b - 1]);
                        if a < k {
                            assert(t@[a] == prev[a]);
                            if b - 1 == k {
                                assert(prev[a].0 < d);
                                assert(d < prev[k as int].0 || d == prev[k as int].0
                                    || prev[k as int].0 < d);
                                assert(prev[a].0 < prev[b - 1].0 || prev[a].0 < d);
                                assert(d <= prev[k as int].0);
                            } else {
                                assert(prev[a].0 < prev[b - 1].0);
                            }
                        } else if a == k {
                            assert(t@[a].0 == d);
                            assert(d <= prev[k as int].0);
                            assert(prev[k as int].0 <= prev[b - 1].0);
                        } else {
                            assert(t@[a] == prev[a - 1]);
                            assert(prev[a - 1].0 < prev[b - 1].0);
                        }
                    }
                }
            }
        }
        proof {
            assert forall|kk: int|
                0 <= kk < t@.len() implies (#[trigger] t@[kk]).1 == count_val(
                vals@,
                t@[kk].0,
                i + 1,
            ) && 1 <= t@[kk].1 <= i + 1 by {
                assert(count_val(vals@, t@[kk].0, i + 1) == count_val(vals@, t@[kk].0, i as int)
                    + (if vals@[i as int] == t@[kk].0 {
                    1int
                } else {
                    0int
                }));
                if found {
                    if kk != k {
                        assert(t@[kk] == prev[kk]);
                        if kk < k {
                            assert(prev[kk].0 < d);
                        } else {
                            assert(prev[k as int].0 < prev[kk].0);
                        }
                    }
                } else {
                    if kk < k {
                        assert(t@[kk] == prev[kk]);
                        assert(prev[kk].0 != d);
                    } else if kk > k {
                        assert(t@[kk] == prev[kk - 1]);
                        assert(prev[kk - 1].0 != d);
                    } else {
                        lemma_count_val_bounded(vals@, d, i as int);
                        assert(count_val(vals@, d, i as int) == 0) by {
                            assert forall|j: int| 0 <= j < i implies #[trigger] vals@[j] != d by {
                                let kx = choose|kx: int|
                                    0 <= kx < prev.len() && (#[trigger] prev[kx]).0 == vals@[j];
                                assert(prev[kx].0 != d);
                            }
                            lemma_count_val_zero(vals@, d, i as int);
                        }
                    }
                }
            }
            assert forall|j: int|
                #![trigger vals@[j]]
                0 <= j < i + 1 implies exists|kk: int|
                    0 <= kk < t@.len() && (#[trigger] t@[kk]).0 == vals@[j] by {
                if j < i {
                    let kk = choose|kk: int| 0 <= kk < prev.len() && (#[trigger] prev[kk]).0
                        == vals@[j];
                    if found {
                        if kk == k {
                            assert(t@[k as int].0 == vals@[j]);
                        } else {
                            assert(t@[kk].0 == vals@[j]);
                        }
                    } else {
                        if kk < k {
                            assert(t@[kk].0 == vals@[j]);
                        } else {
                            assert(t@[kk + 1].0 == vals@[j]);
                        }
                    }
                } else {
                    assert(t@[k as int].0 == vals@[j]);
                }
            }
        }
        i = i + 1;
    }
    t
}

/// A value that differs from every one of the first `i` occurs zero
/// times among them.
proof fn lemma_count_val_zero(vals: Seq<u64>, d: u64, i: int)
    requires
        0 <= i <= vals.len(),
        forall|j: int| #![trigger vals[j]] 0 <= j < i ==> vals[j] != d,
    ensures
        count_val(vals, d, i) == 0,
    decreases i,
{
    if i > 0 {
        lemma_count_val_zero(vals, d, i - 1);
    }
}

/// The counter-view of the working vector.
pub open spec fn cnts_view(v: Seq<(Vec<u8>, u64)>) -> Seq<(Seq<u8>, u64)> {
    Seq::new(v.len(), |i: int| (v[i].0@, v[i].1))
}

/// Bumps the counter keyed by this name, creating it at one when absent.
pub(crate) fn bump_exec(cnts: &mut Vec<(Vec<u8>, u64)>, name: &[u8])
    ensures
        cnts_view(final(cnts)@) == spec_bump(cnts_view(old(cnts)@), name@),
{
    let n = cnts.len();
    let mut i: usize = 0;
    while i < n
        invariant
            0 <= i <= n,
            n == cnts@.len(),
            cnts@ == old(cnts)@,
            forall|j: int|
                0 <= j < i ==> !cnt_keyed(name@)(#[trigger] cnts_view(cnts@)[j]),
        decreases n - i,
    {
        let hit = crate::text::bytes_eq(cnts[i].0.as_slice(), name);
        proof {
            assert(cnts_view(cnts@)[i as int] == (cnts@[i as int].0@, cnts@[i as int].1));
        }
        if hit {
            proof {
                assert(cnt_keyed(name@)(cnts_view(cnts@)[i as int]));
                crate::text::lemma_find_index_at(cnts_view(cnts@), cnt_keyed(name@), i as int);
            }
            let key = crate::text::bytes_to_vec(cnts[i].0.as_slice());
            let c = cnts[i].1;
            let c2 = if c < u64::MAX {
                c + 1
            } else {
                c
            };
            let ghost old_cv = cnts_view(cnts@);
            cnts.set(i, (key, c2));
            proof {
                assert(cnts_view(cnts@) =~= old_cv.update(i as int, (old_cv[i as int].0, bump64(
                    old_cv[i as int].1,
                ))));
            }
            return ;
        }
        proof {
            assert(!cnt_keyed(name@)(cnts_view(cnts@)[i as int]));
        }
        i = i + 1;
    }
    proof {
        crate::text::lemma_find_index_none(cnts_view(cnts@), cnt_keyed(name@));
    }
    let ghost old_cv = cnts_view(cnts@);
    cnts.push((crate::text::bytes_to_vec(name), 1));
    proof {
        assert(cnts_view(cnts@) =~= old_cv.push((name@, 1u64)));
    }
}

/// One direction of degree counters for the whole graph.
fn build_counters(graph: &GfaGraph, use_to: bool) -> (r: Vec<(Vec<u8>, u64)>)
    ensures
        use_to ==> cnts_view(r@) == spec_in_cnts(graph@),
        !use_to ==> cnts_view(r@) == spec_out_cnts(graph@),
{
    let ghost names = if use_to {
        link_tos(graph@)
    } else {
        link_froms(graph@)
    };
    let sn = graph.segments.len();
    let mut cnts: Vec<(Vec<u8>, u64)> = Vec::new();
    let mut i: usize = 0;
    while i < sn
        invariant
            0 <= i <= sn,
            sn == graph.segments@.len(),
            cnts_view(cnts@).len() == i,
            forall|j: int|
                0 <= j < i ==> cnts_view(cnts@)[j] == (#[trigger] spec_init_cnts(
                    graph@.segments,
                )[j]),
        decreases sn - i,
    {
        proof {
            assert(graph@.segments[i as int] == graph.segments@[i as int]@);
        }
        cnts.push((crate::text::bytes_to_vec(graph.segments[i].name.as_slice()), 0));
        i = i + 1;
    }
    proof {
        assert(cnts_view(cnts@) =~= spec_init_cnts(graph@.segments));
    }
    let ln = graph.links.len();
    let mut k: usize = 0;
    proof {
        assert(names.len() == graph@.links.len());
    }
    while k < ln
        invariant
            0 <= k <= ln,
            ln == graph.links@.len(),
            names.len() == graph@.links.len(),
            names == if use_to {
                link_tos(graph@)
            } else {
                link_froms(graph@)
            },
            spec_count_fold(spec_init_cnts(graph@.segments), names, 0) == spec_count_fold(
                cnts_view(cnts@),
                names,
                k as int,
            ),
        decreases ln - k,
    {
        proof {
            assert(graph@.links[k as int] == graph.links@[k as int]@);
        }
        if use_to {
            bump_exec(&mut cnts, graph.links[k].to_segment.as_slice());
        } else {
            bump_exec(&mut cnts, graph.links[k].from_segment.as_slice());
        }
        k = k + 1;
    }
    cnts
}

/// The in- and out-degree distributions of the graph: for each direction,
/// one row per occurring degree value with the number of names bearing it
/// — every segment counts, as does every link endpoint naming no segment.
pub fn compute_degree_distributions(graph: &GfaGraph) -> (r: (Vec<(u64, usize)>, Vec<(u64, usize)>))
    ensures
        dist_of(r.0@, deg_vals(spec_in_cnts(graph@))),
        dist_of(r.1@, deg_vals(spec_out_cnts(graph@))),
{
    let in_cnts = build_counters(graph, true);
    let out_cnts = build_counters(graph, false);
    let mut in_vals: Vec<u64> = Vec::new();
    let mut i: usize = 0;
    let n = in_cnts.len();
    while i < n
        invariant
            0 <= i <= n,
            n == in_cnts@.len(),
            cnts_view(in_cnts@) == spec_in_cnts(graph@),
            in_vals@.len() == i,
            forall|j: int| 0 <= j < i ==> in_vals@[j] == (#[trigger] deg_vals(cnts_view(in_cnts@))[j]),
        decreases n - i,
    {
        in_vals.push(in_cnts[i].1);
        i = i + 1;
    }
    proof {
        assert(in_vals@ =~= deg_vals(spec_in_cnts(graph@)));
    }
    let mut out_vals: Vec<u64> = Vec::new();
    let mut k: usize = 0;
    let m = out_cnts.len();
    while k < m
        invariant
            0 <= k <= m,
            m == out_cnts@.len(),
            cnts_view(out_cnts@) == spec_out_cnts(graph@),
            out_vals@.len() == k,
            forall|j: int|
                0 <= j < k ==> out_vals@[j] == (#[trigger] deg_vals(cnts_view(out_cnts@))[j]),
        decreases m - k,
    {
        out_vals.push(out_cnts[k].1);
        k = k + 1;
    }
    proof {
        assert(out_vals@ =~= deg_vals(spec_out_cnts(graph@)));
    }
    (distribution(&in_vals), distribution(&out_vals))
}

/// All counters at most `bound`.
pub open spec fn cnts_le(cnts: Seq<(Seq<u8>, u64)>, bound: int) -> bool {
    forall|j: int| 0 <= j < cnts.len() ==> 0 <= (#[trigger] cnts[j]).1 <= bound
}

/// The sum of all counters.
pub open spec fn sum_cnts(cnts: Seq<(Seq<u8>, u64)>) -> int
    decreases cnts.len(),
{
    if cnts.len() == 0 {
        0
    } else {
        sum_cnts(cnts.drop_last()) + cnts.last().1
    }
}

pub proof fn lemma_sum_cnts_update(cnts: Seq<(Seq<u8>, u64)>, i: int, c2: (Seq<u8>, u64))
    requires
        0 <= i < cnts.len(),
    ensures
        sum_cnts(cnts.update(i, c2)) == sum_cnts(cnts) - cnts[i].1 + c2.1,
    decreases cnts.len(),
{
    let t2 = cnts.update(i, c2);
    if i == cnts.len() - 1 {
        assert(t2.drop_last() =~= cnts.drop_last());
    } else {
        lemma_sum_cnts_update(cnts.drop_last(), i, c2);
        assert(t2.drop_last() =~= cnts.drop_last().update(i, c2));
        assert(t2.last() == cnts.last());
    }
}

pub proof fn lemma_bump_sum(cnts: Seq<(Seq<u8>, u64)>, name: Seq<u8>, bound: int)
    requires
        0 <= bound,
        cnts_le(cnts, bound),
        bound + 1 <= u64::MAX,
    ensures
        sum_cnts(spec_bump(cnts, name)) == sum_cnts(cnts) + 1,
        cnts_le(spec_bump(cnts, name), bound + 1),
{
    crate::text::lemma_find_index(cnts, cnt_keyed(name));
    let i = crate::text::find_index(cnts, cnt_keyed(name));
    if 0 <= i < cnts.len() {
        assert(cnts[i].1 < u64::MAX);
        lemma_sum_cnts_update(cnts, i, (cnts[i].0, bump64(cnts[i].1)));
        assert forall|j: int|
            0 <= j < spec_bump(cnts, name).len() implies 0 <= (#[trigger] spec_bump(cnts, name)[j]).1
            <= bound + 1 by {
            if j != i {
                assert(spec_bump(cnts, name)[j] == cnts[j]);
            }
        }
    } else {
        assert(spec_bump(cnts, name).drop_last() =~= cnts);
        assert forall|j: int|
            0 <= j < spec_bump(cnts, name).len() implies 0 <= (#[trigger] spec_bump(cnts, name)[j]).1
            <= bound + 1 by {
            if j < cnts.len() {
                assert(spec_bump(cnts, name)[j] == cnts[j]);
            }
        }
    }
}

pub proof fn lemma_fold_sum(acc: Seq<(Seq<u8>, u64)>, names: Seq<Seq<u8>>, i: int, bound: int)
    requires
        0 <= i <= names.len(),
        0 <= bound,
        cnts_le(acc, bound),
        bound + (names.len() - i) <= u64::MAX,
    ensures
        sum_cnts(spec_count_fold(acc, names, i)) == sum_cnts(acc) + (names.len() - i),
        cnts_le(spec_count_fold(acc, names, i), bound + (names.len() - i)),
    decreases names.len() - i,
{
    if i < names.len() {
        lemma_bump_sum(acc, names[i], bound);
        lemma_fold_sum(spec_bump(acc, names[i]), names, i + 1, bound + 1);
    }
}

pub proof fn lemma_init_cnts_zero(segs: Seq<SegmentV>)
    ensures
        sum_cnts(spec_init_cnts(segs)) == 0,
        cnts_le(spec_init_cnts(segs), 0),
    decreases segs.len(),
{
    if segs.len() > 0 {
        lemma_init_cnts_zero(segs.drop_last());
        assert(spec_init_cnts(segs).drop_last() =~= spec_init_cnts(segs.drop_last()));
    }
}

/// Law: summed over either degree distribution, degree times count equals
/// the total number of link endpoints of that direction — one per link.
/// The bound on the number of links holds of every graph a machine can
/// hold.
pub proof fn lemma_degree_distribution_total(g: GraphV)
    requires
        g.links.len() <= u64::MAX,
    ensures
        sum_cnts(spec_in_cnts(g)) == g.links.len(),
        sum_cnts(spec_out_cnts(g)) == g.links.len(),
{
    lemma_init_cnts_zero(g.segments);
    lemma_fold_sum(spec_init_cnts(g.segments), link_tos(g), 0, 0);
    lemma_fold_sum(spec_init_cnts(g.segments), link_froms(g), 0, 0);
}

/// The sum of the degree values equals the sum of the counters they came
/// from.
pub proof fn lemma_deg_vals_sum(cnts: Seq<(Seq<u8>, u64)>)
    ensures
        sum_vals(deg_vals(cnts), cnts.len() as int) == sum_cnts(cnts),
    decreases cnts.len(),
{
    if cnts.len() > 0 {
        lemma_deg_vals_sum(cnts.drop_last());
        assert forall|j: int|
            0 <= j < cnts.len() - 1 implies deg_vals(cnts.drop_last())[j] == deg_vals(cnts)[j] by {
        }
        lemma_sum_vals_prefix(deg_vals(cnts), deg_vals(cnts.drop_last()), cnts.len() - 1);
    }
}

/// Two value lists that agree on a prefix have the same prefix sums.
pub proof fn lemma_sum_vals_prefix(a: Seq<u64>, b: Seq<u64>, i: int)
    requires
        0 <= i,
        forall|j: int| 0 <= j < i ==> a[j] == b[j],
    ensures
        sum_vals(a, i) == sum_vals(b, i),
    decreases i,
{
    if i > 0 {
        lemma_sum_vals_prefix(a, b, i - 1);
    }
}


/// The value of the counter keyed `name`, zero when there is none.
pub open spec fn cnt_of(cnts: Seq<(Seq<u8>, u64)>, name: Seq<u8>) -> int {
    let i = crate::text::find_index(cnts, cnt_keyed(name));
    if 0 <= i < cnts.len() {
        cnts[i].1 as int
    } else {
        0
    }
}

/// How many of the names from position `i` on equal `x`.
pub open spec fn occ(names: Seq<Seq<u8>>, x: Seq<u8>, i: int) -> int
    decreases names.len() - i,
{
    if i < 0 || i >= names.len() {
        0
    } else {
        (if names[i] == x {
            1int
        } else {
            0int
        }) + occ(names, x, i + 1)
    }
}

/// A bump changes only the bumped name's counter, by one.
pub proof fn lemma_bump_cnt(cnts: Seq<(Seq<u8>, u64)>, name: Seq<u8>, x: Seq<u8>, bound: int)
    requires
        0 <= bound,
        cnts_le(cnts, bound),
        bound + 1 <= u64::MAX,
    ensures
        cnt_of(spec_bump(cnts, name), x) == cnt_of(cnts, x) + (if name == x {
            1int
        } else {
            0int
        }),
{
    crate::text::lemma_find_index(cnts, cnt_keyed(name));
    crate::text::lemma_find_index(cnts, cnt_keyed(x));
    let i = crate::text::find_index(cnts, cnt_keyed(name));
    let j = crate::text::find_index(cnts, cnt_keyed(x));
    let b = spec_bump(cnts, name);
    if 0 <= i < cnts.len() {
        assert(cnts[i].1 < u64::MAX);
        assert(forall|q: int| 0 <= q < b.len() ==> (#[trigger] b[q]).0 == cnts[q].0);
        if 0 <= j < cnts.len() {
            assert(cnt_keyed(x)(b[j]));
            assert(forall|q: int| 0 <= q < j ==> !cnt_keyed(x)(#[trigger] b[q]));
            crate::text::lemma_find_index_at(b, cnt_keyed(x), j);
            if x == name {
                assert(i == j) by {
                    if i < j {
                        assert(cnt_keyed(name)(cnts[i]));
                        assert(!cnt_keyed(x)(cnts[i]));
                    } else if j < i {
                        assert(cnt_keyed(x)(cnts[j]));
                        assert(!cnt_keyed(name)(cnts[j]));
                    }
                }
            } else {
                assert(i != j);
            }
        } else {
            assert(forall|q: int| 0 <= q < b.len() ==> !cnt_keyed(x)(#[trigger] b[q]));
            crate::text::lemma_find_index_none(b, cnt_keyed(x));
            assert(x != name);
        }
    } else {
        assert(b == cnts.push((name, 1u64)));
        assert(forall|q: int| 0 <= q < cnts.len() ==> (#[trigger] b[q]) == cnts[q]);
        if x == name {
            assert(cnt_keyed(x)(b[cnts.len() as int]));
            assert(forall|q: int| 0 <= q < cnts.len() ==> !cnt_keyed(x)(#[trigger] b[q]));
            crate::text::lemma_find_index_at(b, cnt_keyed(x), cnts.len() as int);
        } else {
            if 0 <= j < cnts.len() {
                assert(cnt_keyed(x)(b[j]));
                assert(forall|q: int| 0 <= q < j ==> !cnt_keyed(x)(#[trigger] b[q]));
                crate::text::lemma_find_index_at(b, cnt_keyed(x), j);
            } else {
                assert(forall|q: int| 0 <= q < b.len() ==> !cnt_keyed(x)(#[trigger] b[q]));
                crate::text::lemma_find_index_none(b, cnt_keyed(x));
            }
        }
    }
}

pub proof fn lemma_fold_cnt(
    acc: Seq<(Seq<u8>, u64)>,
    names: Seq<Seq<u8>>,
    i: int,
    x: Seq<u8>,
    bound: int,
)
    requires
        0 <= i <= names.len(),
        0 <= bound,
        cnts_le(acc, bound),
        bound + (names.len() - i) <= u64::MAX,
    ensures
        cnt_of(spec_count_fold(acc, names, i), x) == cnt_of(acc, x) + occ(names, x, i),
    decreases names.len() - i,
{
    if i < names.len() {
        lemma_bump_cnt(acc, names[i], x, bound);
        lemma_bump_sum(acc, names[i], bound);
        lemma_fold_cnt(spec_bump(acc, names[i]), names, i + 1, x, bound + 1);
    }
}

pub proof fn lemma_init_cnt_of(segs: Seq<SegmentV>, x: Seq<u8>)
    ensures
        cnt_of(spec_init_cnts(segs), x) == 0,
{
    let init = spec_init_cnts(segs);
    crate::text::lemma_find_index(init, cnt_keyed(x));
    let i = crate::text::find_index(init, cnt_keyed(x));
    if 0 <= i < init.len() {
        assert(init[i].1 == 0);
    }
}

/// Law: a name's in-degree is exactly the number of links whose `to`
/// endpoint bears it, and its out-degree the number of links whose
/// `from` endpoint does — whether or not the graph holds a segment of
/// that name.  The bound on the number of links holds of every graph a
/// machine can hold.
pub proof fn lemma_degree_counts(g: GraphV, name: Seq<u8>)
    requires
        g.links.len() < u64::MAX,
    ensures
        cnt_of(spec_in_cnts(g), name) == occ(link_tos(g), name, 0),
        cnt_of(spec_out_cnts(g), name) == occ(link_froms(g), name, 0),
{
    lemma_init_cnts_zero(g.segments);
    lemma_init_cnt_of(g.segments, name);
    lemma_fold_cnt(spec_init_cnts(g.segments), link_tos(g), 0, name, 0);
    lemma_fold_cnt(spec_init_cnts(g.segments), link_froms(g), 0, name, 0);
}


/// Law: any table that is the degree distribution of one direction sums,
/// degree times count, to the graph's link count — each link contributes
/// exactly one endpoint to each direction.
pub proof fn lemma_degree_table_total(g: GraphV, t_in: Seq<(u64, usize)>, t_out: Seq<(u64, usize)>)
    requires
        g.links.len() <= u64::MAX,
        dist_of(t_in, deg_vals(spec_in_cnts(g))),
        dist_of(t_out, deg_vals(spec_out_cnts(g))),
    ensures
        sum_table(t_in) == g.links.len(),
        sum_table(t_out) == g.links.len(),
{
    lemma_degree_distribution_total(g);
    lemma_deg_vals_sum(spec_in_cnts(g));
    lemma_deg_vals_sum(spec_out_cnts(g));
}

} // verus!