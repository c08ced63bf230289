use vstd::prelude::*;

use crate::heap_layout::{desc, fits, mid, lemma_desc_child, lemma_desc_disjoint, lemma_desc_ge, lemma_fits_root};
use crate::range_ops::{chmin, max_int, min_int, min_opt, seq_max, lemma_seq_max_ext, lemma_seq_max_min_opt, lemma_seq_max_split};

verus! {

/// Index of the left child of `index` in the implicit heap layout.
pub fn left_child(index: usize) -> (r: usize)
    requires
        index * 2 + 1 <= usize::MAX,
    ensures
        r == index * 2 + 1,
{
    index * 2 + 1
}

/// Index of the right child of `index` in the implicit heap layout.
pub fn right_child(index: usize) -> (r: usize)
    requires
        index * 2 + 2 <= usize::MAX,
    ensures
        r == index * 2 + 2,
{
    index * 2 + 2
}

/// How an internal node combines the values of its two children.
pub enum NodeFunction {
    Min,
    Max,
}

/// Combination of two child values under `f`.
pub open spec fn combine(f: NodeFunction, a: int, b: int) -> int {
    match f {
        NodeFunction::Min => min_int(a, b),
        NodeFunction::Max => max_int(a, b),
    }
}

/// A pending bound `o` lowered by a further bound `w`.
pub open spec fn merge_pending(o: Option<i32>, w: Option<i32>) -> Option<i32> {
    match w {
        None => o,
        Some(v) => match o {
            Some(u) => Some(if u <= v { u } else { v }),
            None => Some(v),
        },
    }
}

/// Array-backed segment tree over a fixed sequence of `i32`, with range maximum
/// queries and lazily propagated range "chmin" updates.
///
/// Node 0 covers `[0, n - 1]`; a node covering `[lo, hi]` with `lo < hi` has its
/// children at `2i + 1` (covering `[lo, mid]`) and `2i + 2` (covering `[mid + 1, hi]`).
/// `lazy[i]` is a bound still owed to the whole subtree of `i`, `tree[i]` included.
pub struct SegmentTree {
    n: usize,
    tree: Vec<i32>,
    lazy: Vec<Option<i32>>,
}

impl SegmentTree {
    /// Value of node `x` with its own pending bound applied.
    pub closed spec fn eff(self, x: int) -> int {
        min_opt(self.tree@[x] as int, self.lazy@[x])
    }

    /// Logical value of element `i` as seen from node `x` covering `[lo, hi]`.
    pub closed spec fn elem(self, x: int, lo: int, hi: int, i: int) -> int
        decreases hi - lo,
    {
        let below = if lo >= hi {
            self.tree@[x] as int
        } else if i <= mid(lo, hi) {
            self.elem(2 * x + 1, lo, mid(lo, hi), i)
        } else {
            self.elem(2 * x + 2, mid(lo, hi) + 1, hi, i)
        };
        min_opt(below, self.lazy@[x])
    }

    /// `elem` without the pending bound of `x` itself.
    pub closed spec fn inner(self, x: int, lo: int, hi: int, i: int) -> int {
        if lo >= hi {
            self.tree@[x] as int
        } else if i <= mid(lo, hi) {
            self.elem(2 * x + 1, lo, mid(lo, hi), i)
        } else {
            self.elem(2 * x + 2, mid(lo, hi) + 1, hi, i)
        }
    }

    /// Logical values below node `x`, indexed by absolute position.
    pub closed spec fn vals(self, x: int, lo: int, hi: int) -> Seq<int> {
        Seq::new((hi + 1) as nat, |i: int| self.elem(x, lo, hi, i))
    }

    /// Every internal node of the subtree at `x` holds `f` of its children's values.
    pub closed spec fn good(self, f: NodeFunction, x: int, lo: int, hi: int) -> bool
        decreases hi - lo,
    {
        lo < hi ==> {
            &&& self.tree@[x] as int == combine(f, self.eff(2 * x + 1), self.eff(2 * x + 2))
            &&& self.good(f, 2 * x + 1, lo, mid(lo, hi))
            &&& self.good(f, 2 * x + 2, mid(lo, hi) + 1, hi)
        }
    }

    /// Both arrays have four slots per element, which holds every node.
    pub closed spec fn shaped(self) -> bool {
        &&& self.n >= 1
        &&& self.tree.len() == 4 * self.n
        &&& self.lazy.len() == 4 * self.n
        &&& fits(self.tree.len() as int, 0, 0, self.n - 1)
    }

    /// The tree is laid out and aggregates with `f` at every internal node.
    pub closed spec fn wf_with(self, f: NodeFunction) -> bool {
        self.shaped() && self.good(f, 0, 0, self.n - 1)
    }

    /// The tree is laid out and holds the maximum of its children at every internal node.
    pub open spec fn wf(self) -> bool {
        self.wf_with(NodeFunction::Max)
    }

    /// No bound is pending anywhere.
    pub closed spec fn settled(self) -> bool {
        forall|y: int| 0 <= y < self.lazy.len() ==> self.lazy@[y] is None
    }

    /// `other` holds the same nodes as `self` in the subtree of `x`, except perhaps
    /// the pending bound of `x` itself.
    pub closed spec fn same_below(self, other: Self, x: int) -> bool {
        &&& self.tree.len() == other.tree.len()
        &&& self.lazy.len() == other.lazy.len()
        &&& forall|y: int|
            0 <= y < self.tree.len() && #[trigger] desc(y, x) ==> self.tree@[y] == other.tree@[y]
        &&& forall|y: int|
            0 <= y < self.lazy.len() && #[trigger] desc(y, x) && y != x ==> self.lazy@[y]
                == other.lazy@[y]
    }

    /// `other` differs from `self` only inside the subtree of `x`.
    pub closed spec fn same_outside(self, other: Self, x: int) -> bool {
        &&& self.n == other.n
        &&& self.tree.len() == other.tree.len()
        &&& self.lazy.len() == other.lazy.len()
        &&& forall|y: int|
            0 <= y < self.tree.len() && !#[trigger] desc(y, x) ==> self.tree@[y] == other.tree@[y]
        &&& forall|y: int|
            0 <= y < self.lazy.len() && !#[trigger] desc(y, x) ==> self.lazy@[y] == other.lazy@[y]
    }
}

impl SegmentTree {
    proof fn lemma_below_child(self, x: int, c: int)
        requires
            x >= 0,
            c == 2 * x + 1 || c == 2 * x + 2,
        ensures
            forall|y: int| #[trigger] desc(y, c) ==> desc(y, x) && y != x,
    {
        assert forall|y: int| #[trigger] desc(y, c) implies desc(y, x) && y != x by {
            lemma_desc_child(y, x);
            lemma_desc_ge(y, c);
        }
    }

    /// `elem` reads nothing outside the subtree of `x`.
    proof fn lemma_agree_elem(self, other: Self, x: int, lo: int, hi: int)
        requires
            fits(self.tree.len() as int, x, lo, hi),
            self.tree.len() == self.lazy.len(),
            self.same_below(other, x),
            self.lazy@[x] == other.lazy@[x],
        ensures
            forall|i: int| self.elem(x, lo, hi, i) == other.elem(x, lo, hi, i),
        decreases hi - lo,
    {
        assert(desc(x, x));
        if lo < hi {
            let m = mid(lo, hi);
            self.lemma_fits_children(x, lo, hi);
            self.lemma_below_child(x, 2 * x + 1);
            self.lemma_below_child(x, 2 * x + 2);
            assert(desc(2 * x + 1, 2 * x + 1));
            assert(desc(2 * x + 2, 2 * x + 2));
            self.lemma_agree_elem(other, 2 * x + 1, lo, m);
            self.lemma_agree_elem(other, 2 * x + 2, m + 1, hi);
            assert forall|i: int| self.elem(x, lo, hi, i) == other.elem(x, lo, hi, i) by {
                assert(self.elem(x, lo, hi, i) == min_opt(self.inner(x, lo, hi, i), self.lazy@[x]));
                assert(other.elem(x, lo, hi, i) == min_opt(other.inner(x, lo, hi, i), other.lazy@[x]));
            }
        } else {
            assert(0 <= x < self.tree.len());
        }
    }

    /// `inner` reads nothing outside the subtree of `x` but the pending bound of `x`.
    proof fn lemma_agree_inner(self, other: Self, x: int, lo: int, hi: int)
        requires
            fits(self.tree.len() as int, x, lo, hi),
            self.tree.len() == self.lazy.len(),
            self.same_below(other, x),
        ensures
            forall|i: int| self.inner(x, lo, hi, i) == other.inner(x, lo, hi, i),
    {
        assert(desc(x, x));
        if lo < hi {
            let m = mid(lo, hi);
            self.lemma_fits_children(x, lo, hi);
            self.lemma_below_child(x, 2 * x + 1);
            self.lemma_below_child(x, 2 * x + 2);
            assert(desc(2 * x + 1, 2 * x + 1));
            assert(desc(2 * x + 2, 2 * x + 2));
            self.lemma_agree_elem(other, 2 * x + 1, lo, m);
            self.lemma_agree_elem(other, 2 * x + 2, m + 1, hi);
        }
    }

    proof fn lemma_fits_children(self, x: int, lo: int, hi: int)
        requires
            fits(self.tree.len() as int, x, lo, hi),
            lo < hi,
        ensures
            0 <= x < self.tree.len(),
            0 <= 2 * x + 1 < self.tree.len(),
            0 <= 2 * x + 2 < self.tree.len(),
            fits(self.tree.len() as int, 2 * x + 1, lo, mid(lo, hi)),
            fits(self.tree.len() as int, 2 * x + 2, mid(lo, hi) + 1, hi),
    {
        let len = self.tree.len() as int;
        assert(fits(len, 2 * x + 1, lo, mid(lo, hi)));
        assert(fits(len, 2 * x + 2, mid(lo, hi) + 1, hi));
    }

    /// `good` reads nothing outside the subtree of `x` but the pending bound of `x`.
    proof fn lemma_agree_good(self, other: Self, f: NodeFunction, x: int, lo: int, hi: int)
        requires
            fits(self.tree.len() as int, x, lo, hi),
            self.tree.len() == self.lazy.len(),
            self.same_below(other, x),
        ensures
            self.good(f, x, lo, hi) == other.good(f, x, lo, hi),
        decreases hi - lo,
    {
        assert(desc(x, x));
        if lo < hi {
            let m = mid(lo, hi);
            self.lemma_below_child(x, 2 * x + 1);
            self.lemma_below_child(x, 2 * x + 2);
            assert(desc(2 * x + 1, 2 * x + 1));
            assert(desc(2 * x + 2, 2 * x + 2));
            self.lemma_fits_children(x, lo, hi);
            self.lemma_agree_good(other, f, 2 * x + 1, lo, m);
            self.lemma_agree_good(other, f, 2 * x + 2, m + 1, hi);
        }
    }

    /// Under the maximum invariant, the value of a node is the maximum of its elements.
    proof fn lemma_eff_is_max(self, x: int, lo: int, hi: int)
        requires
            fits(self.tree.len() as int, x, lo, hi),
            self.good(NodeFunction::Max, x, lo, hi),
            0 <= lo <= hi,
        ensures
            self.eff(x) == seq_max(self.vals(x, lo, hi), lo, hi),
        decreases hi - lo,
    {
        let s = self.vals(x, lo, hi);
        let z = self.lazy@[x];
        if lo < hi {
            let m = mid(lo, hi);
            let sl = self.vals(2 * x + 1, lo, m);
            let sr = self.vals(2 * x + 2, m + 1, hi);
            self.lemma_fits_children(x, lo, hi);
            self.lemma_eff_is_max(2 * x + 1, lo, m);
            self.lemma_eff_is_max(2 * x + 2, m + 1, hi);
            lemma_seq_max_split(s, lo, m, hi);
            assert forall|i: int| lo <= i <= m implies s[i] == min_opt(sl[i], z) by {}
            assert forall|i: int| m + 1 <= i <= hi implies s[i] == min_opt(sr[i], z) by {}
            lemma_seq_max_min_opt(s, sl, lo, m, z);
            lemma_seq_max_min_opt(s, sr, m + 1, hi, z);
        }
    }
}

impl SegmentTree {
    /// `new` is `self` with the bound `w` applied to node `x` covering `[lo, hi]` and
    /// handed on to its children; the pending bound of `x` is cleared.
    pub closed spec fn pushed(self, new: Self, w: Option<i32>, x: int, lo: int, hi: int) -> bool {
        &&& new.n == self.n
        &&& new.tree.len() == self.tree.len()
        &&& new.lazy.len() == self.lazy.len()
        &&& new.tree@[x] as int == min_opt(self.tree@[x] as int, w)
        &&& new.lazy@[x] is None
        &&& lo != hi ==> new.lazy@[2 * x + 1] == merge_pending(self.lazy@[2 * x + 1], w)
        &&& lo != hi ==> new.lazy@[2 * x + 2] == merge_pending(self.lazy@[2 * x + 2], w)
        &&& forall|y: int| 0 <= y < self.tree.len() && y != x ==> new.tree@[y] == self.tree@[y]
        &&& forall|y: int|
            0 <= y < self.lazy.len() && y != x && (lo == hi || (y != 2 * x + 1 && y != 2 * x + 2))
                ==> new.lazy@[y] == self.lazy@[y]
    }

    proof fn lemma_push(self, new: Self, w: Option<i32>, f: NodeFunction, x: int, lo: int, hi: int)
        requires
            fits(self.tree.len() as int, x, lo, hi),
            self.tree.len() == self.lazy.len(),
            lo <= hi,
            self.pushed(new, w, x, lo, hi),
        ensures
            forall|i: int| new.elem(x, lo, hi, i) == min_opt(self.inner(x, lo, hi, i), w),
            self.good(f, x, lo, hi) ==> new.good(f, x, lo, hi),
            self.same_outside(new, x),
    {
        assert(desc(x, x));
        if lo < hi {
            let m = mid(lo, hi);
            let (c1, c2) = (2 * x + 1, 2 * x + 2);
            self.lemma_fits_children(x, lo, hi);
            self.lemma_below_child(x, c1);
            self.lemma_below_child(x, c2);
            assert(desc(c1, c1));
            assert(desc(c2, c2));
            assert forall|y: int| 0 <= y < self.lazy.len() && #[trigger] desc(y, c1) && y != c1
                implies self.lazy@[y] == new.lazy@[y] by {
                lemma_desc_ge(y, c1);
                lemma_desc_disjoint(y, x);
            }
            assert forall|y: int| 0 <= y < self.lazy.len() && #[trigger] desc(y, c2) && y != c2
                implies self.lazy@[y] == new.lazy@[y] by {
                lemma_desc_ge(y, c2);
                lemma_desc_disjoint(y, x);
            }
            assert(self.same_below(new, c1));
            assert(self.same_below(new, c2));
            self.lemma_agree_inner(new, c1, lo, m);
            self.lemma_agree_inner(new, c2, m + 1, hi);
            assert forall|i: int| new.elem(x, lo, hi, i) == min_opt(self.inner(x, lo, hi, i), w) by {
                assert(new.elem(c1, lo, m, i) == min_opt(new.inner(c1, lo, m, i), new.lazy@[c1]));
                assert(self.elem(c1, lo, m, i) == min_opt(self.inner(c1, lo, m, i), self.lazy@[c1]));
                assert(new.elem(c2, m + 1, hi, i) == min_opt(new.inner(c2, m + 1, hi, i), new.lazy@[c2]));
                assert(self.elem(c2, m + 1, hi, i) == min_opt(self.inner(c2, m + 1, hi, i), self.lazy@[c2]));
            }
            self.lemma_agree_good(new, f, c1, lo, m);
            self.lemma_agree_good(new, f, c2, m + 1, hi);
        } else {
            assert(0 <= x < self.tree.len());
        }
        assert forall|y: int| 0 <= y < self.lazy.len() && !#[trigger] desc(y, x)
            implies self.lazy@[y] == new.lazy@[y] by {
            if lo < hi && (y == 2 * x + 1 || y == 2 * x + 2) {
                assert(desc(y, y));
                lemma_desc_child(y, x);
            }
        }
    }

    /// Lowers the pending bound of `node_pos` to `new_lazy_value`, or sets it if none is pending.
    fn lazy_min_or_set(&mut self, node_pos: usize, new_lazy_value: i32)
        requires
            node_pos < old(self).lazy.len(),
        ensures
            final(self).n == old(self).n,
            final(self).tree == old(self).tree,
            final(self).lazy@ == old(self).lazy@.update(
                node_pos as int,
                merge_pending(old(self).lazy@[node_pos as int], Some(new_lazy_value)),
            ),
    {
        if let Some(old_lazy_value) = self.lazy[node_pos] {
            self.lazy[node_pos] = Some(old_lazy_value.min(new_lazy_value));
        } else {
            self.lazy[node_pos] = Some(new_lazy_value);
        }
    }

    /// Applies the pending bound of `node_pos`, which covers `[start, end]`, and hands it on.
    fn apply_lazy_update(&mut self, node_pos: usize, start: usize, end: usize)
        requires
            node_pos < old(self).tree.len(),
            start != end ==> 2 * node_pos + 2 < old(self).tree.len(),
            old(self).tree.len() == old(self).lazy.len(),
        ensures
            old(self).pushed(
                *final(self),
                old(self).lazy@[node_pos as int],
                node_pos as int,
                start as int,
                end as int,
            ),
            old(self).lazy@[node_pos as int] is None ==> *final(self) == *old(self),
    {
        if let Some(lazy_update_value) = self.lazy[node_pos] {
            self.tree[node_pos] = self.tree[node_pos].min(lazy_update_value);
            if start != end {
                self.lazy_min_or_set(left_child(node_pos), lazy_update_value);
                self.lazy_min_or_set(right_child(node_pos), lazy_update_value);
            }
            self.lazy[node_pos] = None;
        }
    }
}

impl SegmentTree {
    proof fn lemma_outside_widen(self, b: Self, c: Self, x: int, d: int)
        requires
            x >= 0,
            d == x || d == 2 * x + 1 || d == 2 * x + 2,
            self.same_outside(b, x),
            b.same_outside(c, d),
        ensures
            self.same_outside(c, x),
    {
        assert forall|y: int| 0 <= y < self.tree.len() && !#[trigger] desc(y, x) implies self.tree@[y]
            == c.tree@[y] by {
            if d != x && desc(y, d) {
                lemma_desc_child(y, x);
            }
        }
        assert forall|y: int| 0 <= y < self.lazy.len() && !#[trigger] desc(y, x) implies self.lazy@[y]
            == c.lazy@[y] by {
            if d != x && desc(y, d) {
                lemma_desc_child(y, x);
            }
        }
    }

    /// Work confined to the subtree of one child leaves the parent and the other child alone.
    proof fn lemma_sibling_untouched(self, b: Self, x: int, c: int, d: int)
        requires
            x >= 0,
            (c == 2 * x + 1 && d == 2 * x + 2) || (c == 2 * x + 2 && d == 2 * x + 1),
            self.same_outside(b, c),
            0 <= d < self.tree.len(),
            self.tree.len() == self.lazy.len(),
        ensures
            self.same_below(b, d),
            self.lazy@[d] == b.lazy@[d],
            self.tree@[x] == b.tree@[x],
            self.lazy@[x] == b.lazy@[x],
    {
        assert forall|y: int| #[trigger] desc(y, d) implies !desc(y, c) by {
            lemma_desc_disjoint(y, x);
        }
        assert(desc(d, d));
        if desc(x, c) {
            lemma_desc_ge(x, c);
        }
    }

    /// Only the node itself changed, and it lies above both children.
    proof fn lemma_children_untouched(self, b: Self, x: int)
        requires
            x >= 0,
            b.tree.len() == self.tree.len(),
            b.lazy == self.lazy,
            forall|y: int| 0 <= y < self.tree.len() && y != x ==> b.tree@[y] == self.tree@[y],
        ensures
            self.same_below(b, 2 * x + 1),
            self.same_below(b, 2 * x + 2),
    {
        assert forall|y: int| #[trigger] desc(y, 2 * x + 1) implies y != x by {
            lemma_desc_ge(y, 2 * x + 1);
        }
        assert forall|y: int| #[trigger] desc(y, 2 * x + 2) implies y != x by {
            lemma_desc_ge(y, 2 * x + 2);
        }
    }

    fn update_range_lazy(&mut self, curr_node_pos: usize, start: usize, end: usize, l: usize, r: usize, t: i32)
        requires
            old(self).tree.len() == old(self).lazy.len(),
            fits(old(self).tree.len() as int, curr_node_pos as int, start as int, end as int),
            start <= end,
            2 * end < old(self).tree.len(),
            old(self).good(NodeFunction::Max, curr_node_pos as int, start as int, end as int),
        ensures
            old(self).same_outside(*final(self), curr_node_pos as int),
            final(self).lazy@[curr_node_pos as int] is None,
            final(self).good(NodeFunction::Max, curr_node_pos as int, start as int, end as int),
            forall|i: int|
                start <= i <= end ==> final(self).elem(curr_node_pos as int, start as int, end as int, i)
                    == if l <= i <= r {
                    min_int(old(self).elem(curr_node_pos as int, start as int, end as int, i), t as int)
                } else {
                    old(self).elem(curr_node_pos as int, start as int, end as int, i)
                },
        decreases end - start,
    {
        let ghost x = curr_node_pos as int;
        let ghost (lo, hi) = (start as int, end as int);
        let ghost s0 = *self;
        proof {
            assert(0 <= x < self.tree.len());
            if lo < hi {
                self.lemma_fits_children(x, lo, hi);
            }
        }
        self.apply_lazy_update(curr_node_pos, start, end);
        let ghost s1 = *self;
        proof {
            s0.lemma_push(s1, s0.lazy@[x], NodeFunction::Max, x, lo, hi);
            assert forall|i: int| s1.elem(x, lo, hi, i) == s0.elem(x, lo, hi, i) by {
                assert(s0.elem(x, lo, hi, i) == min_opt(s0.inner(x, lo, hi, i), s0.lazy@[x]));
            }
            if lo < hi {
                self.lemma_fits_children(x, lo, hi);
            }
        }
        if start > r || end < l {
            return;
        }
        if start >= l && end <= r {
            self.tree[curr_node_pos] = self.tree[curr_node_pos].min(t);
            if start != end {
                self.lazy_min_or_set(left_child(curr_node_pos), t);
                self.lazy_min_or_set(right_child(curr_node_pos), t);
            }
            proof {
                s1.lemma_push(*self, Some(t), NodeFunction::Max, x, lo, hi);
                s0.lemma_outside_widen(s1, *self, x, x);
                assert forall|i: int| s1.elem(x, lo, hi, i) == s1.inner(x, lo, hi, i) by {}
            }
        } else {
            let mid = (start + end) / 2;
            let ghost (c1, c2) = (2 * x + 1, 2 * x + 2);
            self.update_range_lazy(left_child(curr_node_pos), start, mid, l, r, t);
            let ghost s2 = *self;
            proof {
                s1.lemma_sibling_untouched(s2, x, c1, c2);
                s1.lemma_agree_good(s2, NodeFunction::Max, c2, mid as int + 1, hi);
                s1.lemma_agree_elem(s2, c2, mid as int + 1, hi);
            }
            self.update_range_lazy(right_child(curr_node_pos), mid + 1, end, l, r, t);
            let ghost s3 = *self;
            proof {
                s2.lemma_sibling_untouched(s3, x, c2, c1);
                s2.lemma_agree_good(s3, NodeFunction::Max, c1, lo, mid as int);
                s2.lemma_agree_elem(s3, c1, lo, mid as int);
            }
            self.tree[curr_node_pos] = self.tree[left_child(curr_node_pos)].max(
                self.tree[right_child(curr_node_pos)],
            );
            proof {
                let s4 = *self;
                s3.lemma_children_untouched(s4, x);
                s3.lemma_agree_good(s4, NodeFunction::Max, c1, lo, mid as int);
                s3.lemma_agree_elem(s4, c1, lo, mid as int);
                s3.lemma_agree_good(s4, NodeFunction::Max, c2, mid as int + 1, hi);
                s3.lemma_agree_elem(s4, c2, mid as int + 1, hi);
                s0.lemma_outside_widen(s1, s2, x, c1);
                s0.lemma_outside_widen(s2, s3, x, c2);
                assert(s3.same_outside(s4, x)) by {
                    assert(desc(x, x));
                }
                s0.lemma_outside_widen(s3, s4, x, x);
                assert forall|i: int| lo <= i <= hi implies s4.elem(x, lo, hi, i) == if l <= i <= r {
                    min_int(s0.elem(x, lo, hi, i), t as int)
                } else {
                    s0.elem(x, lo, hi, i)
                } by {
                    assert(s1.elem(x, lo, hi, i) == min_opt(s1.inner(x, lo, hi, i), s1.lazy@[x]));
                    assert(s4.elem(x, lo, hi, i) == min_opt(s4.inner(x, lo, hi, i), s4.lazy@[x]));
                }
            }
        }
    }
}

impl SegmentTree {
    fn max_query_lazy(&mut self, curr_node_pos: usize, start: usize, end: usize, l: usize, r: usize) -> (res:
        Option<i32>)
        requires
            old(self).tree.len() == old(self).lazy.len(),
            fits(old(self).tree.len() as int, curr_node_pos as int, start as int, end as int),
            start <= end,
            2 * end < old(self).tree.len(),
            l <= r,
            old(self).good(NodeFunction::Max, curr_node_pos as int, start as int, end as int),
        ensures
            old(self).same_outside(*final(self), curr_node_pos as int),
            final(self).lazy@[curr_node_pos as int] is None,
            final(self).tree@[curr_node_pos as int] as int == old(self).eff(curr_node_pos as int),
            final(self).good(NodeFunction::Max, curr_node_pos as int, start as int, end as int),
            forall|i: int|
                start <= i <= end ==> final(self).elem(curr_node_pos as int, start as int, end as int, i)
                    == old(self).elem(curr_node_pos as int, start as int, end as int, i),
            (start > r || end < l) ==> res is None,
            !(start > r || end < l) ==> (res matches Some(v) && v as int == seq_max(
                old(self).vals(curr_node_pos as int, start as int, end as int),
                max_int(start as int, l as int),
                min_int(end as int, r as int),
            )),
        decreases end - start,
    {
        let ghost x = curr_node_pos as int;
        let ghost (lo, hi) = (start as int, end as int);
        let ghost s0 = *self;
        proof {
            assert(0 <= x < self.tree.len());
            if lo < hi {
                self.lemma_fits_children(x, lo, hi);
            }
        }
        self.apply_lazy_update(curr_node_pos, start, end);
        let ghost s1 = *self;
        proof {
            s0.lemma_push(s1, s0.lazy@[x], NodeFunction::Max, x, lo, hi);
            assert forall|i: int| s1.elem(x, lo, hi, i) == s0.elem(x, lo, hi, i) by {
                assert(s0.elem(x, lo, hi, i) == min_opt(s0.inner(x, lo, hi, i), s0.lazy@[x]));
            }
            if lo < hi {
                self.lemma_fits_children(x, lo, hi);
            }
        }
        if start > r || end < l {
            return None;
        }
        if start >= l && end <= r {
            proof {
                s1.lemma_eff_is_max(x, lo, hi);
                lemma_seq_max_ext(s1.vals(x, lo, hi), s0.vals(x, lo, hi), lo, hi);
            }
            return Some(self.tree[curr_node_pos]);
        }
        let mid = (start + end) / 2;
        let ghost (c1, c2, m) = (2 * x + 1, 2 * x + 2, mid as int);
        let left_max = self.max_query_lazy(left_child(curr_node_pos), start, mid, l, r);
        let ghost s2 = *self;
        proof {
            s1.lemma_sibling_untouched(s2, x, c1, c2);
            s1.lemma_agree_good(s2, NodeFunction::Max, c2, m + 1, hi);
            s1.lemma_agree_elem(s2, c2, m + 1, hi);
        }
        let right_max = self.max_query_lazy(right_child(curr_node_pos), mid + 1, end, l, r);
        proof {
            let s3 = *self;
            s2.lemma_sibling_untouched(s3, x, c2, c1);
            s2.lemma_agree_good(s3, NodeFunction::Max, c1, lo, m);
            s2.lemma_agree_elem(s3, c1, lo, m);
            s0.lemma_outside_widen(s1, s2, x, c1);
            s0.lemma_outside_widen(s2, s3, x, c2);
            assert(desc(c1, c1));
            assert(desc(c2, c2));
            assert(s3.eff(c1) == s1.eff(c1));
            assert(s3.eff(c2) == s1.eff(c2));
            assert(s3.good(NodeFunction::Max, x, lo, hi));
            assert forall|i: int| lo <= i <= hi implies s3.elem(x, lo, hi, i) == s0.elem(x, lo, hi, i) by {
                assert(s1.elem(x, lo, hi, i) == min_opt(s1.inner(x, lo, hi, i), s1.lazy@[x]));
                assert(s3.elem(x, lo, hi, i) == min_opt(s3.inner(x, lo, hi, i), s3.lazy@[x]));
            }
            let (a, b) = (max_int(lo, l as int), min_int(hi, r as int));
            let sx = s0.vals(x, lo, hi);
            assert forall|i: int| lo <= i <= m implies sx[i] == s1.vals(c1, lo, m)[i] by {
                assert(s1.elem(x, lo, hi, i) == min_opt(s1.inner(x, lo, hi, i), s1.lazy@[x]));
            }
            assert forall|i: int| m + 1 <= i <= hi implies sx[i] == s2.vals(c2, m + 1, hi)[i] by {
                assert(s1.elem(x, lo, hi, i) == min_opt(s1.inner(x, lo, hi, i), s1.lazy@[x]));
            }
            if a <= m && m < b {
                lemma_seq_max_split(sx, a, m, b);
                lemma_seq_max_ext(sx, s1.vals(c1, lo, m), a, m);
                lemma_seq_max_ext(sx, s2.vals(c2, m + 1, hi), m + 1, b);
            } else if b <= m {
                lemma_seq_max_ext(sx, s1.vals(c1, lo, m), a, b);
            } else {
                lemma_seq_max_ext(sx, s2.vals(c2, m + 1, hi), a, b);
            }
        }
        match (left_max, right_max) {
            (Some(left_max), Some(right_max)) => Some(left_max.max(right_max)),
            (Some(left_max), None) => Some(left_max),
            (None, Some(right_max)) => Some(right_max),
            (None, None) => None,
        }
    }
}

impl SegmentTree {
    /// Builds a tree over `a` whose internal nodes aggregate with `node_function`.
    pub fn init(a: &[i32], node_function: &NodeFunction) -> (r: Self)
        requires
            a.len() >= 1,
            4 * a.len() <= usize::MAX,
        ensures
            r.wf_with(*node_function),
            r.shaped(),
            r.settled(),
            r.spare_clear(),
            r@ == a@.map_values(|v: i32| v as int),
    {
        let length = a.len();
        let mut segment_tree = SegmentTree {
            n: length,
            tree: vec![0; 4 * length],
            lazy: vec![None; 4 * length],
        };
        proof {
            lemma_fits_root(length as int);
        }
        segment_tree.populate(a, 0, length - 1, 0, node_function);
        proof {
            segment_tree.lemma_filled_settled(*node_function, a@, 0, 0, length - 1);
            assert(segment_tree@ =~= a@.map_values(|v: i32| v as int));
        }
        segment_tree
    }

    /// Fills the subtree of `curr_node_pos`, covering `[start_pos, end_pos]`, from `arr`.
    fn populate(
        &mut self,
        arr: &[i32],
        start_pos: usize,
        end_pos: usize,
        curr_node_pos: usize,
        node_function: &NodeFunction,
    )
        requires
            old(self).tree.len() == old(self).lazy.len(),
            fits(old(self).tree.len() as int, curr_node_pos as int, start_pos as int, end_pos as int),
            start_pos <= end_pos < arr.len(),
        ensures
            old(self).same_outside(*final(self), curr_node_pos as int),
            final(self).lazy == old(self).lazy,
            final(self).filled(*node_function, arr@, curr_node_pos as int, start_pos as int, end_pos as int),
            (forall|y: int|
                0 <= y < old(self).tree.len() && #[trigger] desc(y, curr_node_pos as int) ==> old(self).tree@[y]
                    == 0) ==> final(self).spare_zero(curr_node_pos as int, start_pos as int, end_pos as int),
        decreases end_pos - start_pos,
    {
        let ghost x = curr_node_pos as int;
        let ghost (lo, hi) = (start_pos as int, end_pos as int);
        let ghost s0 = *self;
        let ghost zero = forall|y: int|
            0 <= y < s0.tree.len() && #[trigger] desc(y, x) ==> s0.tree@[y] == 0;
        proof {
            assert(desc(x, x));
            assert(0 <= x < self.tree.len());
            if lo < hi {
                self.lemma_fits_children(x, lo, hi);
            }
        }
        if start_pos == end_pos {
            self.tree[curr_node_pos] = arr[end_pos];
            proof {
                s0.lemma_below_child(x, 2 * x + 1);
                s0.lemma_below_child(x, 2 * x + 2);
            }
            return;
        }
        let mid = start_pos + (end_pos - start_pos) / 2;
        let ghost (c1, c2, m) = (2 * x + 1, 2 * x + 2, mid as int);
        proof {
            assert(m == crate::heap_layout::mid(lo, hi));
            s0.lemma_below_child(x, c1);
            s0.lemma_below_child(x, c2);
        }
        self.populate(arr, start_pos, mid, left_child(curr_node_pos), node_function);
        let ghost s1 = *self;
        proof {
            if zero {
                assert forall|y: int| 0 <= y < s1.tree.len() && #[trigger] desc(y, c2) implies s1.tree@[y]
                    == 0 by {
                    lemma_desc_disjoint(y, x);
                }
            }
        }
        self.populate(arr, mid + 1, end_pos, right_child(curr_node_pos), node_function);
        let ghost s2 = *self;
        proof {
            assert forall|y: int| 0 <= y < s1.tree.len() && #[trigger] desc(y, c1) && y != c1 implies s1.tree@[y]
                == s2.tree@[y] by {
                lemma_desc_disjoint(y, x);
            }
            s1.lemma_agree_spare(s2, c1, lo, m);
            s0.lemma_sibling_untouched(s1, x, c1, c2);
            s1.lemma_sibling_untouched(s2, x, c2, c1);
            s1.lemma_agree_filled(s2, *node_function, arr@, c1, lo, m);
        }
        self.tree[curr_node_pos] = match node_function {
            NodeFunction::Min => self.tree[left_child(curr_node_pos)].min(
                self.tree[right_child(curr_node_pos)],
            ),
            NodeFunction::Max => self.tree[left_child(curr_node_pos)].max(
                self.tree[right_child(curr_node_pos)],
            ),
        };
        proof {
            let s3 = *self;
            s2.lemma_children_untouched(s3, x);
            s2.lemma_agree_filled(s3, *node_function, arr@, c1, lo, m);
            s2.lemma_agree_filled(s3, *node_function, arr@, c2, m + 1, hi);
            s2.lemma_agree_spare(s3, c1, lo, m);
            s2.lemma_agree_spare(s3, c2, m + 1, hi);
            s0.lemma_outside_widen(s0, s1, x, c1);
            s0.lemma_outside_widen(s1, s2, x, c2);
            assert(s2.same_outside(s3, x));
            s0.lemma_outside_widen(s2, s3, x, x);
            assert(desc(c1, c1));
            assert(desc(c2, c2));
        }
    }

    /// Maximum of the elements at 1-based positions `l..=r`.
    pub fn query_max(&mut self, l: usize, r: usize) -> (res: Option<i32>)
        requires
            old(self).wf(),
            1 <= l <= r <= old(self)@.len(),
        ensures
            final(self).wf(),
            final(self).shaped(),
            final(self)@ == old(self)@,
            res matches Some(v) && v as int == seq_max(old(self)@, l - 1, r - 1),
    {
        let ghost s0 = *self;
        proof {
            assert(s0.vals(0, 0, s0.n - 1) =~= s0@);
        }
        let res = self.max_query_lazy(0, 0, self.n - 1, l - 1, r - 1);
        proof {
            assert(self@ =~= s0@);
        }
        res
    }

    /// Lowers every element at 1-based positions `l..=r` to at most `t`.
    pub fn update_range(&mut self, l: usize, r: usize, t: i32)
        requires
            old(self).wf(),
            1 <= l <= r <= old(self)@.len(),
        ensures
            final(self).wf(),
            final(self).shaped(),
            final(self)@ == chmin(old(self)@, l - 1, r - 1, t as int),
    {
        let ghost s0 = *self;
        self.update_range_lazy(0, 0, self.n - 1, l - 1, r - 1, t);
        proof {
            assert(self@ =~= chmin(s0@, l - 1, r - 1, t as int));
        }
    }
}

/// Number of slots from `cur` to the end of an array of length `len`.
pub open spec fn slots_from(len: int, cur: int) -> int {
    if cur < len {
        len - cur
    } else {
        0
    }
}

/// Some node of the heap subtree at `cur`, reached through nodes holding at most `k`,
/// holds exactly `k`.
pub open spec fn found_below(tree: Seq<i32>, cur: int, k: int) -> bool
    decreases slots_from(tree.len() as int, cur),
{
    if cur < 0 || cur >= tree.len() || tree[cur] > k {
        false
    } else if tree[cur] == k {
        true
    } else {
        found_below(tree, 2 * cur + 1, k) || found_below(tree, 2 * cur + 2, k)
    }
}

/// Outcome of the exact-coverage search from node `x` covering `[lo, hi]` over positions
/// `[l, r]`: the nodes that lie wholly inside `[l, r]` and nearest the root are each searched
/// with `found_below`.
pub open spec fn exact_below(tree: Seq<i32>, x: int, lo: int, hi: int, l: int, r: int, k: int) -> bool
    decreases hi - lo,
{
    if lo > r || hi < l {
        false
    } else if lo >= l && hi <= r {
        found_below(tree, x, k)
    } else if lo >= hi {
        false
    } else {
        exact_below(tree, 2 * x + 1, lo, mid(lo, hi), l, r, k)
            || exact_below(tree, 2 * x + 2, mid(lo, hi) + 1, hi, l, r, k)
    }
}

proof fn lemma_found_agree(t1: Seq<i32>, t2: Seq<i32>, cur: int, k: int)
    requires
        t1.len() == t2.len(),
        cur >= 0,
        forall|y: int| 0 <= y < t1.len() && #[trigger] desc(y, cur) ==> t1[y] == t2[y],
    ensures
        found_below(t1, cur, k) == found_below(t2, cur, k),
    decreases slots_from(t1.len() as int, cur),
{
    assert(desc(cur, cur));
    if 0 <= cur < t1.len() {
        assert forall|y: int| #[trigger] desc(y, 2 * cur + 1) implies desc(y, cur) by {
            lemma_desc_child(y, cur);
        }
        assert forall|y: int| #[trigger] desc(y, 2 * cur + 2) implies desc(y, cur) by {
            lemma_desc_child(y, cur);
        }
        lemma_found_agree(t1, t2, 2 * cur + 1, k);
        lemma_found_agree(t1, t2, 2 * cur + 2, k);
    }
}

proof fn lemma_exact_agree(t1: Seq<i32>, t2: Seq<i32>, x: int, lo: int, hi: int, l: int, r: int, k: int)
    requires
        t1.len() == t2.len(),
        x >= 0,
        forall|y: int| 0 <= y < t1.len() && #[trigger] desc(y, x) ==> t1[y] == t2[y],
    ensures
        exact_below(t1, x, lo, hi, l, r, k) == exact_below(t2, x, lo, hi, l, r, k),
    decreases hi - lo,
{
    if lo > r || hi < l {
    } else if lo >= l && hi <= r {
        lemma_found_agree(t1, t2, x, k);
    } else if lo < hi {
        assert forall|y: int| #[trigger] desc(y, 2 * x + 1) implies desc(y, x) by {
            lemma_desc_child(y, x);
        }
        assert forall|y: int| #[trigger] desc(y, 2 * x + 2) implies desc(y, x) by {
            lemma_desc_child(y, x);
        }
        lemma_exact_agree(t1, t2, 2 * x + 1, lo, mid(lo, hi), l, r, k);
        lemma_exact_agree(t1, t2, 2 * x + 2, mid(lo, hi) + 1, hi, l, r, k);
    }
}

impl SegmentTree {
    /// The exact-coverage search over positions `[l, r]` succeeds on the current node values.
    pub closed spec fn covers_exactly(self, l: int, r: int, k: int) -> bool {
        exact_below(self.tree@, 0, 0, self.n - 1, l, r, k)
    }

    /// Builds a tree over a frequency array.
    pub fn build_from_frequency(freq: &[i32], node_function: &NodeFunction) -> (r: Self)
        requires
            freq.len() >= 1,
            4 * freq.len() <= usize::MAX,
        ensures
            r.wf_with(*node_function),
            r.shaped(),
            r.settled(),
            r.spare_clear(),
            r@ == freq@.map_values(|v: i32| v as int),
    {
        Self::init(freq, node_function)
    }

    /// Whether the search of `covers_exactly` succeeds for positions `[l, r]` and value `k`.
    /// Pending bounds met on the way are applied first, which leaves the elements as they were.
    pub fn exists_exact_coverage(&mut self, l: usize, r: usize, k: i32) -> (res: bool)
        requires
            old(self).shaped(),
            8 * old(self)@.len() + 2 <= usize::MAX,
        ensures
            final(self).shaped(),
            final(self)@ == old(self)@,
            forall|f: NodeFunction| old(self).wf_with(f) ==> final(self).wf_with(f),
            res == final(self).covers_exactly(l as int, r as int, k as int),
            old(self).settled() ==> *final(self) == *old(self),
            ({
                &&& old(self).wf_with(NodeFunction::Min)
                &&& old(self).settled()
                &&& old(self).spare_clear()
                &&& forall|i: int| 0 <= i < old(self)@.len() ==> old(self)@[i] >= 0
            }) ==> (res == exists|i: int|
                0 <= i < old(self)@.len() && l <= i <= r && old(self)@[i] == k as int),
    {
        let ghost s0 = *self;
        let res = self.range_exact_check(0, 0, self.n - 1, l, r, k);
        proof {
            assert(self@ =~= s0@);
            if s0.wf_with(NodeFunction::Min) && s0.settled() && s0.spare_clear() && forall|i: int|
                0 <= i < s0@.len() ==> s0@[i] >= 0 {
                let hi = s0.n - 1;
                assert forall|i: int| 0 <= i <= hi implies #[trigger] s0.elem(0, 0, hi, i) >= 0 by {
                    assert(s0@[i] == s0.elem(0, 0, hi, i));
                }
                s0.lemma_exact_meaning(0, 0, hi, l as int, r as int, k as int);
                if exists|i: int| 0 <= i <= hi && l <= i <= r && s0.elem(0, 0, hi, i) == k {
                    let i = choose|i: int| 0 <= i <= hi && l <= i <= r && s0.elem(0, 0, hi, i) == k;
                    assert(0 <= i < s0@.len() && l <= i <= r && s0@[i] == k as int);
                }
                if exists|i: int| 0 <= i < s0@.len() && l <= i <= r && s0@[i] == k as int {
                    let i = choose|i: int| 0 <= i < s0@.len() && l <= i <= r && s0@[i] == k as int;
                    assert(0 <= i <= hi && l <= i <= r && s0.elem(0, 0, hi, i) == k);
                }
            }
        }
        res
    }

    fn range_exact_check(&mut self, curr_node_pos: usize, start: usize, end: usize, l: usize, r: usize, k: i32) -> (res:
        bool)
        requires
            old(self).tree.len() == old(self).lazy.len(),
            fits(old(self).tree.len() as int, curr_node_pos as int, start as int, end as int),
            start <= end,
            2 * end < old(self).tree.len(),
            2 * old(self).tree.len() + 2 <= usize::MAX,
        ensures
            old(self).same_outside(*final(self), curr_node_pos as int),
            final(self).lazy@[curr_node_pos as int] is None,
            final(self).tree@[curr_node_pos as int] as int == old(self).eff(curr_node_pos as int),
            forall|f: NodeFunction|
                old(self).good(f, curr_node_pos as int, start as int, end as int) ==> final(self).good(
                    f,
                    curr_node_pos as int,
                    start as int,
                    end as int,
                ),
            forall|i: int|
                start <= i <= end ==> final(self).elem(curr_node_pos as int, start as int, end as int, i)
                    == old(self).elem(curr_node_pos as int, start as int, end as int, i),
            res == exact_below(
                final(self).tree@,
                curr_node_pos as int,
                start as int,
                end as int,
                l as int,
                r as int,
                k as int,
            ),
            old(self).settled() ==> *final(self) == *old(self),
        decreases end - start,
    {
        let ghost x = curr_node_pos as int;
        let ghost (lo, hi) = (start as int, end as int);
        let ghost s0 = *self;
        proof {
            assert(0 <= x < self.tree.len());
            if lo < hi {
                self.lemma_fits_children(x, lo, hi);
            }
        }
        self.apply_lazy_update(curr_node_pos, start, end);
        let ghost s1 = *self;
        proof {
            assert forall|f: NodeFunction| s0.good(f, x, lo, hi) implies s1.good(f, x, lo, hi) by {
                s0.lemma_push(s1, s0.lazy@[x], f, x, lo, hi);
            }
            s0.lemma_push(s1, s0.lazy@[x], NodeFunction::Max, x, lo, hi);
            assert forall|i: int| s1.elem(x, lo, hi, i) == s0.elem(x, lo, hi, i) by {
                assert(s0.elem(x, lo, hi, i) == min_opt(s0.inner(x, lo, hi, i), s0.lazy@[x]));
            }
            if lo < hi {
                self.lemma_fits_children(x, lo, hi);
            }
        }
        if start > r || end < l {
            return false;
        }
        if start >= l && end <= r {
            return self.lower_bound_search(curr_node_pos, k).is_some();
        }
        let mid = (start + end) / 2;
        let ghost (c1, c2, m) = (2 * x + 1, 2 * x + 2, mid as int);
        let left_exists = self.range_exact_check(left_child(curr_node_pos), start, mid, l, r, k);
        let ghost s2 = *self;
        proof {
            s1.lemma_sibling_untouched(s2, x, c1, c2);
            assert forall|f: NodeFunction| s1.good(f, x, lo, hi) implies s2.good(f, c2, m + 1, hi) by {
                s1.lemma_agree_good(s2, f, c2, m + 1, hi);
            }
            s1.lemma_agree_elem(s2, c2, m + 1, hi);
        }
        let right_exists = self.range_exact_check(right_child(curr_node_pos), mid + 1, end, l, r, k);
        proof {
            let s3 = *self;
            s2.lemma_sibling_untouched(s3, x, c2, c1);
            s2.lemma_agree_elem(s3, c1, lo, m);
            s0.lemma_outside_widen(s1, s2, x, c1);
            s0.lemma_outside_widen(s2, s3, x, c2);
            assert(desc(c1, c1));
            assert(desc(c2, c2));
            assert forall|f: NodeFunction| s0.good(f, x, lo, hi) implies s3.good(f, x, lo, hi) by {
                s2.lemma_agree_good(s3, f, c1, lo, m);
                assert(s3.eff(c1) == s1.eff(c1));
                assert(s3.eff(c2) == s1.eff(c2));
            }
            assert forall|i: int| lo <= i <= hi implies s3.elem(x, lo, hi, i) == s0.elem(x, lo, hi, i) by {
                assert(s1.elem(x, lo, hi, i) == min_opt(s1.inner(x, lo, hi, i), s1.lazy@[x]));
                assert(s3.elem(x, lo, hi, i) == min_opt(s3.inner(x, lo, hi, i), s3.lazy@[x]));
            }
            assert forall|y: int| 0 <= y < s3.tree.len() && #[trigger] desc(y, c1) implies s2.tree@[y]
                == s3.tree@[y] by {
                lemma_desc_disjoint(y, x);
            }
            lemma_exact_agree(s2.tree@, s3.tree@, c1, lo, m, l as int, r as int, k as int);
        }
        left_exists || right_exists
    }

    fn lower_bound_search(&mut self, current: usize, k: i32) -> (res: Option<i32>)
        requires
            2 * old(self).tree.len() + 2 <= usize::MAX,
        ensures
            *final(self) == *old(self),
            res == if found_below(old(self).tree@, current as int, k as int) {
                Some(k)
            } else {
                None
            },
        decreases slots_from(old(self).tree.len() as int, current as int),
    {
        if current >= self.tree.len() || self.tree[current] > k {
            return None;
        }
        if self.tree[current] == k {
            return Some(self.tree[current]);
        }
        let left_result = self.lower_bound_search(left_child(current), k);
        let right_result = self.lower_bound_search(right_child(current), k);
        if left_result.is_some() {
            return left_result;
        }
        right_result
    }
}

/// Node `x` covering `[lo, hi]` is reached from node `px` covering `[plo, phi]`.
pub open spec fn reached(px: int, plo: int, phi: int, x: int, lo: int, hi: int) -> bool
    decreases phi - plo,
{
    ||| (px == x && plo == lo && phi == hi)
    ||| (plo < phi && (reached(2 * px + 1, plo, mid(plo, phi), x, lo, hi) || reached(
        2 * px + 2,
        mid(plo, phi) + 1,
        phi,
        x,
        lo,
        hi,
    )))
}

impl SegmentTree {
    /// Node `x` of the tree covers the positions `[lo, hi]`.
    pub closed spec fn is_node(self, x: int, lo: int, hi: int) -> bool {
        reached(0, 0, self.n - 1, x, lo, hi)
    }

    /// The value stored at node `x`.
    pub closed spec fn value_at(self, x: int) -> int {
        self.tree@[x] as int
    }

    /// The bound pending at node `x`, if any.
    pub closed spec fn pending_at(self, x: int) -> Option<i32> {
        self.lazy@[x]
    }

    proof fn lemma_good_reached(self, f: NodeFunction, px: int, plo: int, phi: int, x: int, lo: int, hi: int)
        requires
            self.good(f, px, plo, phi),
            reached(px, plo, phi, x, lo, hi),
        ensures
            self.good(f, x, lo, hi),
        decreases phi - plo,
    {
        if !(px == x && plo == lo && phi == hi) {
            let m = mid(plo, phi);
            if reached(2 * px + 1, plo, m, x, lo, hi) {
                self.lemma_good_reached(f, 2 * px + 1, plo, m, x, lo, hi);
            } else {
                self.lemma_good_reached(f, 2 * px + 2, m + 1, phi, x, lo, hi);
            }
        }
    }

    /// In a well-formed tree (as every update leaves it), each internal node whose children
    /// have no pending bound holds the maximum of its children's values.
    pub proof fn merge_invariant(self, x: int, lo: int, hi: int)
        requires
            self.wf(),
            self.is_node(x, lo, hi),
            lo < hi,
            self.pending_at(2 * x + 1) is None,
            self.pending_at(2 * x + 2) is None,
        ensures
            self.value_at(x) == max_int(self.value_at(2 * x + 1), self.value_at(2 * x + 2)),
    {
        self.lemma_good_reached(NodeFunction::Max, 0, 0, self.n - 1, x, lo, hi);
    }
}

impl SegmentTree {
    /// The slots of the heap subtrees hanging below the leaves under `x` (which no node of
    /// the tree uses) hold 0.
    pub closed spec fn spare_zero(self, x: int, lo: int, hi: int) -> bool
        decreases hi - lo,
    {
        if lo >= hi {
            &&& forall|y: int| 0 <= y < self.tree.len() && #[trigger] desc(y, 2 * x + 1) ==> self.tree@[y] == 0
            &&& forall|y: int| 0 <= y < self.tree.len() && #[trigger] desc(y, 2 * x + 2) ==> self.tree@[y] == 0
        } else {
            self.spare_zero(2 * x + 1, lo, mid(lo, hi)) && self.spare_zero(2 * x + 2, mid(lo, hi) + 1, hi)
        }
    }

    /// Every slot that no node of the tree uses holds 0.
    pub closed spec fn spare_clear(self) -> bool {
        self.spare_zero(0, 0, self.n - 1)
    }

    proof fn lemma_agree_spare(self, other: Self, x: int, lo: int, hi: int)
        requires
            x >= 0,
            self.tree.len() == other.tree.len(),
            forall|y: int| 0 <= y < self.tree.len() && #[trigger] desc(y, x) && y != x ==> self.tree@[y]
                == other.tree@[y],
        ensures
            self.spare_zero(x, lo, hi) == other.spare_zero(x, lo, hi),
        decreases hi - lo,
    {
        self.lemma_below_child(x, 2 * x + 1);
        self.lemma_below_child(x, 2 * x + 2);
        if lo < hi {
            assert forall|y: int| #[trigger] desc(y, 2 * x + 1) && y != 2 * x + 1 implies desc(y, x) && y != x by {}
            assert forall|y: int| #[trigger] desc(y, 2 * x + 2) && y != 2 * x + 2 implies desc(y, x) && y != x by {}
            self.lemma_agree_spare(other, 2 * x + 1, lo, mid(lo, hi));
            self.lemma_agree_spare(other, 2 * x + 2, mid(lo, hi) + 1, hi);
        }
    }

    /// With nothing pending, a minimum tree holds at each node the least of its elements.
    proof fn lemma_min_node(self, x: int, lo: int, hi: int)
        requires
            fits(self.tree.len() as int, x, lo, hi),
            self.tree.len() == self.lazy.len(),
            self.settled(),
            self.good(NodeFunction::Min, x, lo, hi),
            lo <= hi,
        ensures
            forall|i: int| lo <= i <= hi ==> self.tree@[x] <= self.elem(x, lo, hi, i),
            exists|i: int| lo <= i <= hi && self.tree@[x] == self.elem(x, lo, hi, i),
        decreases hi - lo,
    {
        if lo < hi {
            let m = mid(lo, hi);
            self.lemma_fits_children(x, lo, hi);
            self.lemma_min_node(2 * x + 1, lo, m);
            self.lemma_min_node(2 * x + 2, m + 1, hi);
            assert(self.lazy@[x] is None);
            assert(self.lazy@[2 * x + 1] is None);
            assert(self.lazy@[2 * x + 2] is None);
            assert forall|i: int| lo <= i <= hi implies self.elem(x, lo, hi, i) == if i <= m {
                self.elem(2 * x + 1, lo, m, i)
            } else {
                self.elem(2 * x + 2, m + 1, hi, i)
            } by {
                assert(self.elem(x, lo, hi, i) == min_opt(self.inner(x, lo, hi, i), self.lazy@[x]));
            }
            if self.tree@[2 * x + 1] <= self.tree@[2 * x + 2] {
                let j = choose|j: int| lo <= j <= m && self.tree@[2 * x + 1] == #[trigger] self.elem(2 * x + 1, lo, m, j);
                assert(lo <= j <= hi && self.tree@[x] == self.elem(x, lo, hi, j));
            } else {
                let j = choose|j: int| m + 1 <= j <= hi && self.tree@[2 * x + 2] == #[trigger] self.elem(2 * x + 2, m + 1, hi, j);
                assert(lo <= j <= hi && self.tree@[x] == self.elem(x, lo, hi, j));
            }
        } else {
            assert(0 <= x < self.lazy.len());
            assert(self.lazy@[x] is None);
            assert(self.tree@[x] == self.elem(x, lo, hi, lo));
        }
    }
}

proof fn lemma_found_spare(tree: Seq<i32>, c: int, k: int)
    requires
        c >= 0,
        k >= 1,
        forall|y: int| 0 <= y < tree.len() && #[trigger] desc(y, c) ==> tree[y] == 0,
    ensures
        !found_below(tree, c, k),
    decreases slots_from(tree.len() as int, c),
{
    assert(desc(c, c));
    if 0 <= c < tree.len() {
        assert forall|y: int| #[trigger] desc(y, 2 * c + 1) implies desc(y, c) by {
            lemma_desc_child(y, c);
        }
        assert forall|y: int| #[trigger] desc(y, 2 * c + 2) implies desc(y, c) by {
            lemma_desc_child(y, c);
        }
        lemma_found_spare(tree, 2 * c + 1, k);
        lemma_found_spare(tree, 2 * c + 2, k);
    }
}

impl SegmentTree {
    /// On a settled minimum tree with spare slots at 0 and no negative element, the search
    /// below node `x` finds `k` exactly when one of its elements is `k`.
    proof fn lemma_found_exact(self, x: int, lo: int, hi: int, k: int)
        requires
            fits(self.tree.len() as int, x, lo, hi),
            self.tree.len() == self.lazy.len(),
            self.settled(),
            self.good(NodeFunction::Min, x, lo, hi),
            self.spare_zero(x, lo, hi),
            lo <= hi,
            forall|i: int| lo <= i <= hi ==> self.elem(x, lo, hi, i) >= 0,
        ensures
            found_below(self.tree@, x, k) == exists|i: int| lo <= i <= hi && self.elem(x, lo, hi, i) == k,
        decreases hi - lo,
    {
        self.lemma_min_node(x, lo, hi);
        let t = self.tree@;
        assert(0 <= x < t.len());
        if t[x] > k {
            assert(!exists|i: int| lo <= i <= hi && self.elem(x, lo, hi, i) == k);
        } else if t[x] == k {
            let j = choose|j: int| lo <= j <= hi && self.tree@[x] == #[trigger] self.elem(x, lo, hi, j);
            assert(lo <= j <= hi && self.elem(x, lo, hi, j) == k);
        } else if lo == hi {
            assert(self.lazy@[x] is None);
            assert(self.elem(x, lo, hi, lo) == t[x]);
            assert(k >= 1);
            lemma_found_spare(t, 2 * x + 1, k);
            lemma_found_spare(t, 2 * x + 2, k);
            assert(!exists|i: int| lo <= i <= hi && self.elem(x, lo, hi, i) == k);
        } else {
            let m = mid(lo, hi);
            let (c1, c2, m1) = (2 * x + 1, 2 * x + 2, mid(lo, hi) + 1);
            self.lemma_fits_children(x, lo, hi);
            assert(self.lazy@[x] is None);
            assert forall|i: int| lo <= i <= hi implies self.elem(x, lo, hi, i) == if i <= m {
                self.elem(2 * x + 1, lo, m, i)
            } else {
                self.elem(2 * x + 2, m + 1, hi, i)
            } by {
                assert(self.elem(x, lo, hi, i) == min_opt(self.inner(x, lo, hi, i), self.lazy@[x]));
            }
            assert forall|i: int| lo <= i <= m implies #[trigger] self.elem(c1, lo, m, i) >= 0 by {
                assert(self.elem(x, lo, hi, i) >= 0);
            }
            assert forall|i: int| m + 1 <= i <= hi implies #[trigger] self.elem(c2, m + 1, hi, i) >= 0 by {
                assert(self.elem(x, lo, hi, i) >= 0);
            }
            self.lemma_found_exact(2 * x + 1, lo, m, k);
            self.lemma_found_exact(2 * x + 2, m + 1, hi, k);
            if exists|i: int| lo <= i <= m && self.elem(c1, lo, m, i) == k {
                let i = choose|i: int| lo <= i <= m && self.elem(c1, lo, m, i) == k;
                assert(lo <= i <= hi && self.elem(x, lo, hi, i) == k);
            }
            if exists|i: int| m + 1 <= i <= hi && #[trigger] self.elem(c2, m1, hi, i) == k {
                let i = choose|i: int| m + 1 <= i <= hi && #[trigger] self.elem(c2, m1, hi, i) == k;
                assert(lo <= i <= hi && self.elem(x, lo, hi, i) == k);
            }
            if exists|i: int| lo <= i <= hi && self.elem(x, lo, hi, i) == k {
                let i = choose|i: int| lo <= i <= hi && self.elem(x, lo, hi, i) == k;
                if i <= m {
                    assert(lo <= i <= m && self.elem(2 * x + 1, lo, m, i) == k);
                } else {
                    assert(m + 1 <= i <= hi && self.elem(2 * x + 2, m + 1, hi, i) == k);
                }
            }
        }
    }

    /// Under the conditions of `lemma_found_exact`, the search over `[l, r]` from node `x`
    /// succeeds exactly when an element at a position of `[l, r] ∩ [lo, hi]` is `k`.
    proof fn lemma_exact_meaning(self, x: int, lo: int, hi: int, l: int, r: int, k: int)
        requires
            fits(self.tree.len() as int, x, lo, hi),
            self.tree.len() == self.lazy.len(),
            self.settled(),
            self.good(NodeFunction::Min, x, lo, hi),
            self.spare_zero(x, lo, hi),
            lo <= hi,
            forall|i: int| lo <= i <= hi ==> self.elem(x, lo, hi, i) >= 0,
        ensures
            exact_below(self.tree@, x, lo, hi, l, r, k) == exists|i: int|
                lo <= i <= hi && l <= i <= r && self.elem(x, lo, hi, i) == k,
        decreases hi - lo,
    {
        if lo > r || hi < l {
        } else if lo >= l && hi <= r {
            self.lemma_found_exact(x, lo, hi, k);
            if exists|i: int| lo <= i <= hi && self.elem(x, lo, hi, i) == k {
                let j = choose|j: int| lo <= j <= hi && self.elem(x, lo, hi, j) == k;
                assert(lo <= j <= hi && l <= j <= r && self.elem(x, lo, hi, j) == k);
            }
        } else if lo < hi {
            let m = mid(lo, hi);
            let (c1, c2, m1) = (2 * x + 1, 2 * x + 2, mid(lo, hi) + 1);
            self.lemma_fits_children(x, lo, hi);
            assert(self.lazy@[x] is None);
            assert forall|i: int| lo <= i <= hi implies self.elem(x, lo, hi, i) == if i <= m {
                self.elem(2 * x + 1, lo, m, i)
            } else {
                self.elem(2 * x + 2, m + 1, hi, i)
            } by {
                assert(self.elem(x, lo, hi, i) == min_opt(self.inner(x, lo, hi, i), self.lazy@[x]));
            }
            assert forall|i: int| lo <= i <= m implies #[trigger] self.elem(c1, lo, m, i) >= 0 by {
                assert(self.elem(x, lo, hi, i) >= 0);
            }
            assert forall|i: int| m + 1 <= i <= hi implies #[trigger] self.elem(c2, m + 1, hi, i) >= 0 by {
                assert(self.elem(x, lo, hi, i) >= 0);
            }
            self.lemma_exact_meaning(2 * x + 1, lo, m, l, r, k);
            self.lemma_exact_meaning(2 * x + 2, m + 1, hi, l, r, k);
            if exists|i: int| lo <= i <= m && l <= i <= r && self.elem(c1, lo, m, i) == k {
                let i = choose|i: int| lo <= i <= m && l <= i <= r && self.elem(c1, lo, m, i) == k;
                assert(lo <= i <= hi && l <= i <= r && self.elem(x, lo, hi, i) == k);
            }
            if exists|i: int| m + 1 <= i <= hi && l <= i <= r && #[trigger] self.elem(c2, m1, hi, i) == k {
                let i = choose|i: int| m + 1 <= i <= hi && l <= i <= r && #[trigger] self.elem(c2, m1, hi, i) == k;
                assert(lo <= i <= hi && l <= i <= r && self.elem(x, lo, hi, i) == k);
            }
            if exists|i: int| lo <= i <= hi && l <= i <= r && self.elem(x, lo, hi, i) == k {
                let i = choose|i: int| lo <= i <= hi && l <= i <= r && self.elem(x, lo, hi, i) == k;
                if i <= m {
                    assert(lo <= i <= m && l <= i <= r && self.elem(2 * x + 1, lo, m, i) == k);
                } else {
                    assert(m + 1 <= i <= hi && l <= i <= r && self.elem(2 * x + 2, m + 1, hi, i) == k);
                }
            }
        }
    }
}

impl SegmentTree {
    /// Each node of the subtree at `x`, covering `[lo, hi]`, holds what `f` makes of `arr`
    /// over its range: a leaf its element, an internal node `f` of its children's values.
    pub closed spec fn filled(self, f: NodeFunction, arr: Seq<i32>, x: int, lo: int, hi: int) -> bool
        decreases hi - lo,
    {
        if lo >= hi {
            self.tree@[x] == arr[lo]
        } else {
            &&& self.tree@[x] as int == combine(f, self.tree@[2 * x + 1] as int, self.tree@[2 * x + 2] as int)
            &&& self.filled(f, arr, 2 * x + 1, lo, mid(lo, hi))
            &&& self.filled(f, arr, 2 * x + 2, mid(lo, hi) + 1, hi)
        }
    }

    /// `filled` reads only the node values of the subtree at `x`.
    proof fn lemma_agree_filled(self, other: Self, f: NodeFunction, arr: Seq<i32>, x: int, lo: int, hi: int)
        requires
            fits(self.tree.len() as int, x, lo, hi),
            self.tree.len() == other.tree.len(),
            forall|y: int| 0 <= y < self.tree.len() && #[trigger] desc(y, x) ==> self.tree@[y] == other.tree@[y],
        ensures
            self.filled(f, arr, x, lo, hi) == other.filled(f, arr, x, lo, hi),
        decreases hi - lo,
    {
        assert(desc(x, x));
        assert(0 <= x < self.tree.len());
        if lo < hi {
            self.lemma_fits_children(x, lo, hi);
            self.lemma_below_child(x, 2 * x + 1);
            self.lemma_below_child(x, 2 * x + 2);
            assert(desc(2 * x + 1, 2 * x + 1));
            assert(desc(2 * x + 2, 2 * x + 2));
            self.lemma_agree_filled(other, f, arr, 2 * x + 1, lo, mid(lo, hi));
            self.lemma_agree_filled(other, f, arr, 2 * x + 2, mid(lo, hi) + 1, hi);
        }
    }

    /// With nothing pending, a filled subtree aggregates with `f` and stands for `arr` on its range.
    proof fn lemma_filled_settled(self, f: NodeFunction, arr: Seq<i32>, x: int, lo: int, hi: int)
        requires
            fits(self.tree.len() as int, x, lo, hi),
            self.tree.len() == self.lazy.len(),
            self.settled(),
            self.filled(f, arr, x, lo, hi),
            lo <= hi,
        ensures
            self.good(f, x, lo, hi),
            forall|i: int| lo <= i <= hi ==> self.elem(x, lo, hi, i) == arr[i] as int,
        decreases hi - lo,
    {
        assert(0 <= x < self.lazy.len());
        assert(self.lazy@[x] is None);
        if lo < hi {
            let m = mid(lo, hi);
            self.lemma_fits_children(x, lo, hi);
            self.lemma_filled_settled(f, arr, 2 * x + 1, lo, m);
            self.lemma_filled_settled(f, arr, 2 * x + 2, m + 1, hi);
            assert(self.lazy@[2 * x + 1] is None);
            assert(self.lazy@[2 * x + 2] is None);
            assert forall|i: int| lo <= i <= hi implies self.elem(x, lo, hi, i) == arr[i] as int by {
                assert(self.elem(x, lo, hi, i) == min_opt(self.inner(x, lo, hi, i), self.lazy@[x]));
            }
        }
    }
}

impl View for SegmentTree {
    type V = Seq<int>;

    /// The logical sequence: element `i` is the value the tree stands for at position `i`.
    closed spec fn view(&self) -> Seq<int> {
        Seq::new(self.n as nat, |i: int| self.elem(0, 0, self.n - 1, i))
    }
}

} // verus!
