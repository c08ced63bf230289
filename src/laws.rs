use vstd::prelude::*;

use crate::range_ops::{chmin, min_int, seq_max, lemma_seq_max_is_max};

verus! {

/// Right after construction, the maximum over the whole range `1..=n` is the maximum
/// of the input: it occurs in the input and no input element exceeds it.
pub proof fn construction_gives_max(a: Seq<i32>)
    requires
        a.len() >= 1,
    ensures
        ({
            let s = a.map_values(|v: i32| v as int);
            let m = seq_max(s, 0, a.len() - 1);
            &&& exists|j: int| 0 <= j < a.len() && a[j] as int == m
            &&& forall|i: int| 0 <= i < a.len() ==> a[i] as int <= m
        }),
{
    let s = a.map_values(|v: i32| v as int);
    lemma_seq_max_is_max(s, 0, a.len() - 1);
    let m = seq_max(s, 0, a.len() - 1);
    let j = choose|j: int| 0 <= j <= a.len() - 1 && s[j] == m;
    assert(0 <= j < a.len() && a[j] as int == m);
    assert forall|i: int| 0 <= i < a.len() implies a[i] as int <= m by {
        assert(s[i] == a[i] as int);
    }
}

/// Repeating a range min-assign with the same arguments changes nothing more.
pub proof fn update_is_idempotent(s: Seq<int>, a: int, b: int, t: int)
    ensures
        chmin(chmin(s, a, b, t), a, b, t) == chmin(s, a, b, t),
{
    assert(chmin(chmin(s, a, b, t), a, b, t) =~= chmin(s, a, b, t));
}

/// A range min-assign never raises an element inside the range and leaves every
/// element outside it as it was.
pub proof fn update_is_monotone(s: Seq<int>, a: int, b: int, t: int)
    ensures
        chmin(s, a, b, t).len() == s.len(),
        forall|i: int| 0 <= i < s.len() && a <= i <= b ==> #[trigger] chmin(s, a, b, t)[i] <= s[i],
        forall|i: int|
            0 <= i < s.len() && !(a <= i <= b) ==> #[trigger] chmin(s, a, b, t)[i] == s[i],
{
}

/// Two range min-assigns over the same range compose into one with the smaller bound,
/// whichever comes first.
pub proof fn updates_compose_by_min(s: Seq<int>, a: int, b: int, t1: int, t2: int)
    ensures
        chmin(chmin(s, a, b, t1), a, b, t2) == chmin(s, a, b, min_int(t1, t2)),
        chmin(chmin(s, a, b, t1), a, b, t2) == chmin(chmin(s, a, b, t2), a, b, t1),
{
    assert(chmin(chmin(s, a, b, t1), a, b, t2) =~= chmin(s, a, b, min_int(t1, t2)));
    assert(chmin(chmin(s, a, b, t2), a, b, t1) =~= chmin(s, a, b, min_int(t1, t2)));
}

} // verus!
