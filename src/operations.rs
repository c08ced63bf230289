use vstd::prelude::*;

use crate::range_ops::{chmin, seq_max};
use crate::segment_tree::SegmentTree;

verus! {

/// Replays `ops` on the sequence `s`: `(l, r, Some(t))` lowers positions `l..=r` (1-based)
/// to at most `t`; `(l, r, None)` asks for their maximum. Gives the final sequence and the
/// answers, in order.
pub open spec fn replay(s: Seq<int>, ops: Seq<(usize, usize, Option<i32>)>) -> (Seq<int>, Seq<int>)
    decreases ops.len(),
{
    if ops.len() == 0 {
        (s, Seq::empty())
    } else {
        let (v, out) = replay(s, ops.drop_last());
        let op = ops.last();
        match op.2 {
            Some(t) => (chmin(v, op.0 - 1, op.1 - 1, t as int), out),
            None => (v, out.push(seq_max(v, op.0 - 1, op.1 - 1))),
        }
    }
}

proof fn lemma_replay_len(s: Seq<int>, ops: Seq<(usize, usize, Option<i32>)>)
    ensures
        replay(s, ops).0.len() == s.len(),
    decreases ops.len(),
{
    if ops.len() > 0 {
        lemma_replay_len(s, ops.drop_last());
    }
}

/// Runs `queries` in order on `segment_tree` and returns the answers of the maximum queries.
pub fn run_queries(segment_tree: &mut SegmentTree, queries: &[(usize, usize, Option<i32>)]) -> (results:
    Vec<i32>)
    requires
        old(segment_tree).wf(),
        forall|q: int|
            0 <= q < queries.len() ==> 1 <= (#[trigger] queries@[q]).0 <= queries@[q].1 <= old(
                segment_tree,
            )@.len(),
    ensures
        final(segment_tree).wf(),
        final(segment_tree)@ == replay(old(segment_tree)@, queries@).0,
        results@.map_values(|v: i32| v as int) == replay(old(segment_tree)@, queries@).1,
{
    let ghost s0 = segment_tree@;
    let mut results: Vec<i32> = Vec::new();
    let mut q: usize = 0;
    while q < queries.len()
        invariant
            q <= queries.len(),
            segment_tree.wf(),
            s0.len() == segment_tree@.len(),
            forall|q: int|
                0 <= q < queries.len() ==> 1 <= (#[trigger] queries@[q]).0 <= queries@[q].1 <= s0.len(),
            segment_tree@ == replay(s0, queries@.take(q as int)).0,
            results@.map_values(|v: i32| v as int) == replay(s0, queries@.take(q as int)).1,
        decreases queries.len() - q,
    {
        let query = queries[q];
        proof {
            assert(queries@.take(q as int + 1).drop_last() =~= queries@.take(q as int));
            assert(queries@.take(q as int + 1).last() == query);
        }
        match query.2 {
            Some(value) => {
                segment_tree.update_range(query.0, query.1, value);
                proof {
                    lemma_replay_len(s0, queries@.take(q as int + 1));
                }
            },
            None => {
                let answer = segment_tree.query_max(query.0, query.1);
                let ghost before = results@;
                results.push(answer.unwrap());
                proof {
                    assert(results@.map_values(|v: i32| v as int) =~= before.map_values(|v: i32| v as int).push(
                        answer.unwrap() as int,
                    ));
                }
            },
        }
        q += 1;
    }
    proof {
        assert(queries@.take(queries.len() as int) =~= queries@);
    }
    results
}

} // verus!
