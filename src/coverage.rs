use vstd::prelude::*;

use crate::segment_tree::{NodeFunction, SegmentTree};

verus! {

/// Number of segments `[a, b]` of `segs` that cover position `i`: those with `a <= i`
/// that have not ended before `i`.
pub open spec fn covered(segs: Seq<(usize, usize)>, i: int) -> int
    decreases segs.len(),
{
    if segs.len() == 0 {
        0
    } else {
        let s = segs.last();
        covered(segs.drop_last(), i) + (if s.0 <= i {
            1int
        } else {
            0
        }) - (if s.1 < i {
            1int
        } else {
            0
        })
    }
}

/// Entry `j` of the difference array of `segs` over `n` positions: +1 where a segment
/// starts, -1 just after one ends (when that is still a position).
pub open spec fn step(segs: Seq<(usize, usize)>, n: int, j: int) -> int
    decreases segs.len(),
{
    if segs.len() == 0 {
        0
    } else {
        let s = segs.last();
        step(segs.drop_last(), n, j) + (if s.0 == j {
            1int
        } else {
            0
        }) - (if s.1 + 1 == j && j < n {
            1int
        } else {
            0
        })
    }
}

proof fn lemma_step_bounds(segs: Seq<(usize, usize)>, n: int, j: int)
    ensures
        -segs.len() <= step(segs, n, j) <= segs.len(),
        -segs.len() <= covered(segs, j) <= segs.len(),
    decreases segs.len(),
{
    if segs.len() > 0 {
        lemma_step_bounds(segs.drop_last(), n, j);
    }
}

/// Coverage is the running sum of the difference array.
proof fn lemma_covered_steps(segs: Seq<(usize, usize)>, n: int, i: int)
    requires
        0 <= i < n,
    ensures
        i == 0 ==> covered(segs, 0) == step(segs, n, 0),
        i > 0 ==> covered(segs, i) == covered(segs, i - 1) + step(segs, n, i),
    decreases segs.len(),
{
    if segs.len() > 0 {
        lemma_covered_steps(segs.drop_last(), n, i);
    }
}

/// Segments that start no later than they end cover no position a negative number of times.
proof fn lemma_covered_nonneg(segs: Seq<(usize, usize)>, i: int)
    requires
        forall|k: int| 0 <= k < segs.len() ==> (#[trigger] segs[k]).0 <= segs[k].1,
    ensures
        covered(segs, i) >= 0,
    decreases segs.len(),
{
    if segs.len() > 0 {
        let rest = segs.drop_last();
        assert forall|k: int| 0 <= k < rest.len() implies (#[trigger] rest[k]).0 <= rest[k].1 by {
            assert(rest[k] == segs[k]);
        }
        assert(segs.last() == segs[segs.len() - 1]);
        lemma_covered_nonneg(rest, i);
    }
}

/// Number of segments covering each of the positions `0..n`.
pub fn build_frequency_array(n: usize, segments: &[(usize, usize)]) -> (freq: Vec<i32>)
    requires
        n < usize::MAX,
        segments.len() < i32::MAX,
        forall|k: int| 0 <= k < segments.len() ==> (#[trigger] segments@[k]).0 <= n,
        forall|k: int| 0 <= k < segments.len() ==> (#[trigger] segments@[k]).1 < usize::MAX,
    ensures
        freq.len() == n,
        forall|i: int| 0 <= i < n ==> freq@[i] as int == covered(segments@, i),
{
    let ghost segs = segments@;
    let mut freq: Vec<i32> = vec![0; n + 1];
    let mut k: usize = 0;
    while k < segments.len()
        invariant
            freq.len() == n + 1,
            k <= segments.len(),
            segs == segments@,
            segments.len() < i32::MAX,
            forall|k: int| 0 <= k < segments.len() ==> (#[trigger] segments@[k]).0 <= n,
            forall|k: int| 0 <= k < segments.len() ==> (#[trigger] segments@[k]).1 < usize::MAX,
            forall|j: int| 0 <= j <= n ==> freq@[j] as int == step(segs.take(k as int), n as int, j),
        decreases segments.len() - k,
    {
        let (l, r) = segments[k];
        proof {
            assert(segs.take(k as int + 1).drop_last() =~= segs.take(k as int));
            lemma_step_bounds(segs.take(k as int), n as int, l as int);
            lemma_step_bounds(segs.take(k as int), n as int, r as int + 1);
        }
        freq[l] += 1;
        if r + 1 < n {
            freq[r + 1] -= 1;
        }
        k += 1;
    }
    proof {
        assert(segs.take(segs.len() as int) =~= segs);
        if n > 0 {
            lemma_covered_steps(segs, n as int, 0);
        }
    }
    let mut i: usize = 1;
    while i < n
        invariant
            1 <= i,
            freq.len() == n + 1,
            n < usize::MAX,
            segs == segments@,
            segments.len() < i32::MAX,
            forall|j: int| 0 <= j < i && j < n ==> freq@[j] as int == covered(segs, j),
            forall|j: int| i <= j <= n ==> freq@[j] as int == step(segs, n as int, j),
        decreases n - i,
    {
        proof {
            lemma_covered_steps(segs, n as int, i as int);
            lemma_step_bounds(segs, n as int, i as int);
        }
        freq[i] += freq[i - 1];
        i += 1;
    }
    freq.pop();
    freq
}

/// Answers each query `(l, r, Some(k))` with 1 when the exact-coverage search of a minimum
/// tree over the coverage of `segments` succeeds for positions `[l, r]` and value `k`, else 0.
/// When every segment starts no later than it ends, that is: 1 exactly when some position of
/// `[l, r]` below `n` is covered by exactly `k` segments.
pub fn process_is_there_queries(
    n: usize,
    segments: &[(usize, usize)],
    queries: &[(usize, usize, Option<i32>)],
) -> (results: Vec<i32>)
    requires
        1 <= n,
        8 * n + 2 <= usize::MAX,
        segments.len() < i32::MAX,
        forall|k: int| 0 <= k < segments.len() ==> (#[trigger] segments@[k]).0 <= n,
        forall|k: int| 0 <= k < segments.len() ==> (#[trigger] segments@[k]).1 < usize::MAX,
        forall|q: int| 0 <= q < queries.len() ==> (#[trigger] queries@[q]).2 is Some,
    ensures
        results.len() == queries.len(),
        exists|t: SegmentTree|
            {
                &&& t.wf_with(NodeFunction::Min)
                &&& t@ == Seq::new(n as nat, |i: int| covered(segments@, i))
                &&& forall|q: int|
                    0 <= q < queries.len() ==> (#[trigger] results@[q]) == if t.covers_exactly(
                        queries@[q].0 as int,
                        queries@[q].1 as int,
                        queries@[q].2.unwrap() as int,
                    ) {
                        1i32
                    } else {
                        0i32
                    }
            },
        (forall|k: int| 0 <= k < segments.len() ==> (#[trigger] segments@[k]).0 <= segments@[k].1) ==> forall|
            q: int,
        |
            0 <= q < queries.len() ==> (#[trigger] results@[q]) == if exists|i: int|
                queries@[q].0 <= i <= queries@[q].1 && 0 <= i < n && covered(segments@, i)
                    == queries@[q].2.unwrap() as int {
                1i32
            } else {
                0i32
            },
{
    let freq = build_frequency_array(n, segments);
    let node_function = NodeFunction::Min;
    let mut segment_tree = SegmentTree::build_from_frequency(&freq, &node_function);
    let ghost t0 = segment_tree;
    let ghost well_formed = forall|k: int|
        0 <= k < segments.len() ==> (#[trigger] segments@[k]).0 <= segments@[k].1;
    proof {
        assert(t0@ =~= Seq::new(n as nat, |i: int| covered(segments@, i)));
        if well_formed {
            assert forall|i: int| 0 <= i < t0@.len() implies t0@[i] >= 0 by {
                lemma_covered_nonneg(segments@, i);
            }
        }
    }
    let mut results: Vec<i32> = Vec::new();
    let mut q: usize = 0;
    while q < queries.len()
        invariant
            q <= queries.len(),
            results.len() == q,
            segment_tree == t0,
            t0.shaped(),
            8 * n + 2 <= usize::MAX,
            t0.settled(),
            t0.wf_with(NodeFunction::Min),
            t0.spare_clear(),
            t0@ == Seq::new(n as nat, |i: int| covered(segments@, i)),
            well_formed ==> forall|i: int| 0 <= i < t0@.len() ==> t0@[i] >= 0,
            well_formed == forall|k: int|
                0 <= k < segments.len() ==> (#[trigger] segments@[k]).0 <= segments@[k].1,
            forall|q: int| 0 <= q < queries.len() ==> (#[trigger] queries@[q]).2 is Some,
            forall|p: int|
                0 <= p < q ==> (#[trigger] results@[p]) == if t0.covers_exactly(
                    queries@[p].0 as int,
                    queries@[p].1 as int,
                    queries@[p].2.unwrap() as int,
                ) {
                    1i32
                } else {
                    0i32
                },
            well_formed ==> forall|p: int|
                0 <= p < q ==> (#[trigger] results@[p]) == if exists|i: int|
                    queries@[p].0 <= i <= queries@[p].1 && 0 <= i < n && covered(segments@, i)
                        == queries@[p].2.unwrap() as int {
                    1i32
                } else {
                    0i32
                },
        decreases queries.len() - q,
    {
        let (i, j, k) = queries[q];
        let exists = segment_tree.exists_exact_coverage(i, j, k.unwrap());
        results.push(if exists { 1 } else { 0 });
        proof {
            if well_formed {
                let p = q as int;
                assert(queries@[p] == (i, j, k));
                assert(results@[p] == if exists {
                    1i32
                } else {
                    0i32
                });
                if exists {
                    let w = choose|w: int|
                        0 <= w < t0@.len() && i <= w <= j && t0@[w] == k.unwrap() as int;
                    assert(queries@[p].0 <= w <= queries@[p].1 && 0 <= w < n && covered(segments@, w)
                        == queries@[p].2.unwrap() as int);
                } else {
                    assert forall|w: int|
                        queries@[p].0 <= w <= queries@[p].1 && 0 <= w < n implies covered(segments@, w)
                        != queries@[p].2.unwrap() as int by {
                        assert(t0@[w] == covered(segments@, w));
                    }
                }
            }
        }
        q += 1;
    }
    results
}

/// A recorded case: input data, the queries to run on it, and the expected answers.
pub struct Test<T> {
    data: Vec<T>,
    queries: Vec<(usize, usize, Option<i32>)>,
    expected_outputs: Vec<i32>,
}

impl<T> Test<T> {
    pub closed spec fn data_seq(self) -> Seq<T> {
        self.data@
    }

    pub closed spec fn queries_seq(self) -> Seq<(usize, usize, Option<i32>)> {
        self.queries@
    }

    pub closed spec fn expected_seq(self) -> Seq<i32> {
        self.expected_outputs@
    }

    pub fn new(data: Vec<T>, queries: Vec<(usize, usize, Option<i32>)>, expected_outputs: Vec<i32>) -> (r: Self)
        ensures
            r.data_seq() == data@,
            r.queries_seq() == queries@,
            r.expected_seq() == expected_outputs@,
    {
        Test { data, queries, expected_outputs }
    }

    pub fn data(&self) -> (r: &Vec<T>)
        ensures
            r@ == self.data_seq(),
    {
        &self.data
    }

    pub fn queries(&self) -> (r: &Vec<(usize, usize, Option<i32>)>)
        ensures
            r@ == self.queries_seq(),
    {
        &self.queries
    }

    pub fn expected_outputs(&self) -> (r: &Vec<i32>)
        ensures
            r@ == self.expected_seq(),
    {
        &self.expected_outputs
    }
}

} // verus!
