use vstd::prelude::*;

verus! {

/// Larger of two integers.
pub open spec fn max_int(a: int, b: int) -> int {
    if a >= b {
        a
    } else {
        b
    }
}

/// Smaller of two integers.
pub open spec fn min_int(a: int, b: int) -> int {
    if a <= b {
        a
    } else {
        b
    }
}

/// `v` lowered to the pending bound `o`, if there is one.
pub open spec fn min_opt(v: int, o: Option<i32>) -> int {
    match o {
        Some(w) => min_int(v, w as int),
        None => v,
    }
}

/// Maximum of `s[a..=b]`.
pub open spec fn seq_max(s: Seq<int>, a: int, b: int) -> int
    decreases b - a,
{
    if b <= a {
        s[a]
    } else {
        max_int(seq_max(s, a, b - 1), s[b])
    }
}

/// `s` with every element of `s[a..=b]` lowered to at most `t`.
pub open spec fn chmin(s: Seq<int>, a: int, b: int, t: int) -> Seq<int> {
    Seq::new(s.len(), |i: int| if a <= i <= b { min_int(s[i], t) } else { s[i] })
}

/// The maximum of a range splits at any inner point.
pub proof fn lemma_seq_max_split(s: Seq<int>, a: int, m: int, b: int)
    requires
        a <= m < b,
    ensures
        seq_max(s, a, b) == max_int(seq_max(s, a, m), seq_max(s, m + 1, b)),
    decreases b - a,
{
    if b > m + 1 {
        lemma_seq_max_split(s, a, m, b - 1);
    }
}

/// The maximum of a range reads only the elements of the range.
pub proof fn lemma_seq_max_ext(s1: Seq<int>, s2: Seq<int>, a: int, b: int)
    requires
        a <= b,
        forall|i: int| a <= i <= b ==> s1[i] == s2[i],
    ensures
        seq_max(s1, a, b) == seq_max(s2, a, b),
    decreases b - a,
{
    if b > a {
        lemma_seq_max_ext(s1, s2, a, b - 1);
    }
}

/// Lowering every element to a common bound lowers the maximum to it.
pub proof fn lemma_seq_max_min_opt(s1: Seq<int>, s2: Seq<int>, a: int, b: int, z: Option<i32>)
    requires
        a <= b,
        forall|i: int| a <= i <= b ==> s1[i] == min_opt(s2[i], z),
    ensures
        seq_max(s1, a, b) == min_opt(seq_max(s2, a, b), z),
    decreases b - a,
{
    if b > a {
        lemma_seq_max_min_opt(s1, s2, a, b - 1, z);
    }
}

/// The maximum of a range is one of its elements and bounds all of them.
pub proof fn lemma_seq_max_is_max(s: Seq<int>, a: int, b: int)
    requires
        a <= b,
    ensures
        exists|j: int| a <= j <= b && s[j] == seq_max(s, a, b),
        forall|i: int| a <= i <= b ==> s[i] <= seq_max(s, a, b),
    decreases b - a,
{
    if b > a {
        lemma_seq_max_is_max(s, a, b - 1);
        if s[b] == seq_max(s, a, b) {
            assert(a <= b <= b && s[b] == seq_max(s, a, b));
        } else {
            let j = choose|j: int| a <= j <= b - 1 && s[j] == seq_max(s, a, b - 1);
            assert(a <= j <= b && s[j] == seq_max(s, a, b));
        }
    } else {
        assert(a <= a <= b && s[a] == seq_max(s, a, b));
    }
}

} // verus!
