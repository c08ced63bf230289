use vstd::prelude::*;
use vstd::relations::{sorted_by, total_ordering};
use vstd::seq_lib::lemma_sorted_unique;

use crate::range_ops::max_int;

verus! {

/// Topic order: by beauty ascending, then by difficulty descending.
pub open spec fn topic_le(a: (usize, usize), b: (usize, usize)) -> bool {
    a.0 < b.0 || (a.0 == b.0 && a.1 >= b.1)
}

pub open spec fn topic_leq() -> spec_fn((usize, usize), (usize, usize)) -> bool {
    |a: (usize, usize), b: (usize, usize)| topic_le(a, b)
}

/// Compares two `(beauty, difficulty)` topics in topic order.
pub fn topic_order(a: &(usize, usize), b: &(usize, usize)) -> (r: std::cmp::Ordering)
    ensures
        (r == std::cmp::Ordering::Less) == (topic_le(*a, *b) && *a != *b),
        (r == std::cmp::Ordering::Equal) == (*a == *b),
        (r == std::cmp::Ordering::Greater) == !topic_le(*a, *b),
{
    if a.0 < b.0 {
        std::cmp::Ordering::Less
    } else if a.0 > b.0 {
        std::cmp::Ordering::Greater
    } else if a.1 > b.1 {
        std::cmp::Ordering::Less
    } else if a.1 < b.1 {
        std::cmp::Ordering::Greater
    } else {
        std::cmp::Ordering::Equal
    }
}

/// Relies on `slice::sort_by`: with a comparator that is a total order it leaves the same
/// items, in ascending order of that comparator.
#[verifier::external_body]
fn sort_topics(v: &mut Vec<(usize, usize)>)
    ensures
        final(v)@.to_multiset() == old(v)@.to_multiset(),
        sorted_by(final(v)@, topic_leq()),
{
    v.sort_by(|a, b| topic_order(a, b));
}

/// Length of the longest chain of strictly increasing difficulty that ends at `s[i]`.
pub open spec fn chain_at(s: Seq<(usize, usize)>, i: int) -> nat
    decreases i, i + 1,
{
    if i < 0 {
        0
    } else {
        chain_upto(s, i, i)
    }
}

/// Longest chain ending at `s[i]` whose earlier item is among `s[0..k]` (or 1 alone).
pub open spec fn chain_upto(s: Seq<(usize, usize)>, i: int, k: int) -> nat
    decreases i, k,
{
    if k <= 0 || i < 0 || k > i {
        1
    } else {
        let prev = chain_upto(s, i, k - 1);
        if s[k - 1].1 < s[i].1 {
            max_int(prev as int, (chain_at(s, k - 1) + 1) as int) as nat
        } else {
            prev
        }
    }
}

/// Longest chain ending at any of `s[0..n]`.
pub open spec fn best_chain(s: Seq<(usize, usize)>, n: int) -> nat
    decreases n,
{
    if n <= 0 {
        0
    } else {
        max_int(best_chain(s, n - 1) as int, chain_at(s, n - 1) as int) as nat
    }
}

proof fn lemma_chain_bounds(s: Seq<(usize, usize)>, i: int, k: int)
    requires
        0 <= k <= i,
    ensures
        1 <= chain_upto(s, i, k) <= k + 1,
    decreases i, k,
{
    if k > 0 {
        lemma_chain_bounds(s, i, k - 1);
        lemma_chain_bounds(s, k - 1, k - 1);
        assert(chain_at(s, k - 1) == chain_upto(s, k - 1, k - 1));
    }
}

proof fn lemma_topic_order_total()
    ensures
        total_ordering(topic_leq()),
{
}

/// Most topics that can be picked from the first `n` topics in topic order such that
/// difficulty strictly increases along the picks: topics sorted by beauty ascending, ties
/// by difficulty descending, then the longest strictly increasing run of difficulties.
pub fn max_topics(topics: Vec<(usize, usize)>, n: usize) -> (r: usize)
    requires
        1 <= n <= topics.len(),
    ensures
        r == best_chain(topics@.sort_by(topic_leq()), n as int),
{
    let mut lis: Vec<usize> = vec![1; n];
    let mut sorted_topics = topics;
    let ghost t0 = sorted_topics@;
    sort_topics(&mut sorted_topics);
    let ghost s = sorted_topics@;
    proof {
        lemma_topic_order_total();
        t0.lemma_sort_by_ensures(topic_leq());
        lemma_sorted_unique(s, t0.sort_by(topic_leq()), topic_leq());
        assert(s.len() == t0.len()) by {
            broadcast use vstd::seq_lib::group_to_multiset_ensures;

            assert(s.to_multiset().len() == t0.to_multiset().len());
        }
    }
    let mut i: usize = 1;
    while i < n
        invariant
            1 <= i <= n,
            n <= s.len(),
            s == sorted_topics@,
            lis.len() == n,
            forall|p: int| 0 <= p < i ==> #[trigger] lis@[p] == chain_at(s, p),
            forall|p: int| i <= p < n ==> #[trigger] lis@[p] == 1,
        decreases n - i,
    {
        let mut j: usize = 0;
        while j < i
            invariant
                1 <= i < n,
                j <= i,
                n <= s.len(),
                s == sorted_topics@,
                lis.len() == n,
                forall|p: int| 0 <= p < i ==> #[trigger] lis@[p] == chain_at(s, p),
                forall|p: int| i < p < n ==> #[trigger] lis@[p] == 1,
                lis@[i as int] == chain_upto(s, i as int, j as int),
            decreases i - j,
        {
            proof {
                lemma_chain_bounds(s, j as int, j as int);
            }
            if sorted_topics[i].1 > sorted_topics[j].1 {
                lis[i] = lis[i].max(lis[j] + 1);
            }
            j += 1;
        }
        i += 1;
    }
    let mut best: usize = lis[0];
    let mut p: usize = 1;
    proof {
        reveal_with_fuel(best_chain, 2);
    }
    while p < n
        invariant
            1 <= p <= n,
            lis.len() == n,
            forall|q: int| 0 <= q < n ==> #[trigger] lis@[q] == chain_at(s, q),
            best == best_chain(s, p as int),
        decreases n - p,
    {
        best = best.max(lis[p]);
        p += 1;
    }
    best
}

} // verus!
