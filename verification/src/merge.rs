//! K-way merge of sorted runs over a tournament (loser) tree.
//!
//! The tree is a flat array of `k - 1` internal nodes over `k` leaf runs
//! (padded to a power of two with permanently exhausted leaves). Each
//! internal node stores the leaf that *lost* the comparison of its two
//! subtree winners; the overall winner is kept beside the array. Advancing
//! consumes the winner's head and replays only the path from that leaf to
//! the root.

use vstd::prelude::*;
use vstd::multiset::Multiset;
use vstd::seq_lib::group_to_multiset_ensures;
use vstd::seq_lib::lemma_multiset_commutative;
use crate::parallel::is_power_of_two;

verus! {

/// The values of `s` are in ascending order.
pub open spec fn values_sorted(s: Seq<i64>) -> bool {
    forall|i: int, j: int| 0 <= i <= j < s.len() ==> s[i] <= s[j]
}

/// The current head of leaf `d`: the next unconsumed value of its run, or
/// nothing once the run (or a padding leaf) is exhausted.
pub open spec fn leaf_val(ds: Seq<Vec<i64>>, ps: Seq<usize>, d: int) -> Option<i64> {
    if 0 <= d < ds.len() && ps[d] < ds[d]@.len() {
        Option::Some(ds[d]@[ps[d] as int])
    } else {
        Option::None
    }
}

/// Leaf `a` wins a comparison against leaf `b`: an exhausted leaf only ever
/// wins against another exhausted leaf.
pub open spec fn beats(ds: Seq<Vec<i64>>, ps: Seq<usize>, a: int, b: int) -> bool {
    match (leaf_val(ds, ps, a), leaf_val(ds, ps, b)) {
        (Option::None, Option::Some(_)) => false,
        (Option::Some(x), Option::Some(y)) => x <= y,
        _ => true,
    }
}

/// Node `node` of a tree with `cap` leaves covers the leaf range `[lo, hi)`.
pub open spec fn tree_pos(cap: int, node: int, lo: int, hi: int) -> bool {
    &&& 0 <= lo < hi <= cap
    &&& (node + 1) * (hi - lo) == cap + lo
}

/// `m` lies in the subtree rooted at `node` of the implicit binary tree with
/// children `2i + 1` and `2i + 2`.
pub open spec fn in_subtree(node: int, m: int) -> bool
    decreases m,
{
    if m < node || m < 0 || node < 0 {
        m == node && m >= 0
    } else if m == node {
        true
    } else {
        in_subtree(node, (m - 1) / 2)
    }
}

/// The winner of the subtree at `node` over leaves `[lo, hi)`, as the stored
/// losers determine it: at each internal node, the stored loser identifies
/// which child winner was beaten, so the other one advances.
pub open spec fn subtree_winner(lt: Seq<usize>, node: int, lo: int, hi: int) -> int
    decreases hi - lo,
{
    if hi - lo <= 1 {
        lo
    } else {
        let mid = (lo + hi) / 2;
        let wl = subtree_winner(lt, 2 * node + 1, lo, mid);
        let wr = subtree_winner(lt, 2 * node + 2, mid, hi);
        if lt[node] as int == wl {
            wr
        } else {
            wl
        }
    }
}

/// The loser-tree invariant under the current leaf heads: every stored loser
/// is one of its node's two subtree winners, and the node's winner beats it.
pub open spec fn tree_wf(
    lt: Seq<usize>,
    ds: Seq<Vec<i64>>,
    ps: Seq<usize>,
    node: int,
    lo: int,
    hi: int,
) -> bool
    decreases hi - lo,
{
    if hi - lo <= 1 {
        true
    } else {
        let mid = (lo + hi) / 2;
        let wl = subtree_winner(lt, 2 * node + 1, lo, mid);
        let wr = subtree_winner(lt, 2 * node + 2, mid, hi);
        &&& tree_wf(lt, ds, ps, 2 * node + 1, lo, mid)
        &&& tree_wf(lt, ds, ps, 2 * node + 2, mid, hi)
        &&& (lt[node] as int == wl || lt[node] as int == wr)
        &&& beats(ds, ps, subtree_winner(lt, node, lo, hi), lt[node] as int)
    }
}

// --- structural lemmas --------------------------------------------------------

/// Winning is transitive, with exhausted leaves acting as the maximum.
pub proof fn lemma_beats_trans(ds: Seq<Vec<i64>>, ps: Seq<usize>, a: int, b: int, c: int)
    requires
        beats(ds, ps, a, b),
        beats(ds, ps, b, c),
    ensures
        beats(ds, ps, a, c),
{
}

/// A subtree's winner lies within the subtree's leaf range.
pub proof fn lemma_winner_in_range(lt: Seq<usize>, node: int, lo: int, hi: int)
    requires
        lo < hi,
    ensures
        lo <= subtree_winner(lt, node, lo, hi) < hi,
    decreases hi - lo,
{
    if hi - lo > 1 {
        let mid = (lo + hi) / 2;
        lemma_winner_in_range(lt, 2 * node + 1, lo, mid);
        lemma_winner_in_range(lt, 2 * node + 2, mid, hi);
    }
}

/// Every node of a subtree has an index at least the subtree root's.
pub proof fn lemma_in_subtree_ge(node: int, m: int)
    requires
        in_subtree(node, m),
    ensures
        m >= node,
        m >= 0,
    decreases m,
{
}

/// Subtree membership composes through a child.
pub proof fn lemma_in_subtree_trans(node: int, child: int, m: int)
    requires
        in_subtree(node, child),
        in_subtree(child, m),
    ensures
        in_subtree(node, m),
    decreases m,
{
    if m != child {
        lemma_in_subtree_ge(node, child);
        lemma_in_subtree_ge(child, m);
        lemma_in_subtree_trans(node, child, (m - 1) / 2);
    }
}

/// The two subtrees below one node share no nodes.
pub proof fn lemma_siblings_disjoint(node: int, m: int)
    requires
        node >= 0,
        in_subtree(2 * node + 1, m),
    ensures
        !in_subtree(2 * node + 2, m),
    decreases m,
{
    lemma_in_subtree_ge(2 * node + 1, m);
    if m == 2 * node + 1 {
        if in_subtree(2 * node + 2, m) {
            lemma_in_subtree_ge(2 * node + 2, m);
        }
    } else {
        lemma_siblings_disjoint(node, (m - 1) / 2);
        if in_subtree(2 * node + 2, m) {
            lemma_in_subtree_ge(2 * node + 2, m);
            assert(m > 2 * node + 2);
            assert(in_subtree(2 * node + 2, (m - 1) / 2));
        }
    }
}

/// A parent is never inside its own child's subtree.
pub proof fn lemma_parent_outside_children(node: int)
    requires
        node >= 0,
    ensures
        !in_subtree(2 * node + 1, node),
        !in_subtree(2 * node + 2, node),
{
    if in_subtree(2 * node + 1, node) {
        lemma_in_subtree_ge(2 * node + 1, node);
    }
    if in_subtree(2 * node + 2, node) {
        lemma_in_subtree_ge(2 * node + 2, node);
    }
}

/// Every node whose leaf range contains `d` is an ancestor of leaf `d`'s
/// position `d + cap - 1` in the extended tree.
pub proof fn lemma_leaf_on_path(cap: int, node: int, lo: int, hi: int, d: int)
    requires
        tree_pos(cap, node, lo, hi),
        is_power_of_two((hi - lo) as nat),
        lo <= d < hi,
    ensures
        in_subtree(node, d + cap - 1),
    decreases hi - lo,
{
    if hi - lo == 1 {
        assert(node == cap + lo - 1);
        assert(in_subtree(node, node));
    } else {
        lemma_tree_pos_children(cap, node, lo, hi);
        let mid = (lo + hi) / 2;
        assert(in_subtree(node, node));
        assert(in_subtree(node, 2 * node + 1));
        assert(in_subtree(node, 2 * node + 2));
        if d < mid {
            lemma_leaf_on_path(cap, 2 * node + 1, lo, mid, d);
            lemma_in_subtree_trans(node, 2 * node + 1, d + cap - 1);
        } else {
            lemma_leaf_on_path(cap, 2 * node + 2, mid, hi, d);
            lemma_in_subtree_trans(node, 2 * node + 2, d + cap - 1);
        }
    }
}

/// The winner determined by the stored losers only depends on entries inside
/// the subtree.
pub proof fn lemma_winner_frame(
    lt1: Seq<usize>,
    lt2: Seq<usize>,
    cap: int,
    node: int,
    lo: int,
    hi: int,
)
    requires
        tree_pos(cap, node, lo, hi),
        is_power_of_two((hi - lo) as nat),
        lt1.len() == cap - 1,
        lt2.len() == cap - 1,
        forall|m: int| #[trigger] in_subtree(node, m) && 0 <= m < lt1.len() ==> lt1[m] == lt2[m],
    ensures
        subtree_winner(lt1, node, lo, hi) == subtree_winner(lt2, node, lo, hi),
    decreases hi - lo,
{
    if hi - lo > 1 {
        lemma_tree_pos_children(cap, node, lo, hi);
        let mid = (lo + hi) / 2;
        assert(in_subtree(node, node));
        assert(in_subtree(node, 2 * node + 1));
        assert(in_subtree(node, 2 * node + 2));
        assert forall|m: int| #[trigger] in_subtree(2 * node + 1, m) && 0 <= m < lt1.len()
            implies lt1[m] == lt2[m] by {
            lemma_in_subtree_trans(node, 2 * node + 1, m);
        }
        assert forall|m: int| #[trigger] in_subtree(2 * node + 2, m) && 0 <= m < lt1.len()
            implies lt1[m] == lt2[m] by {
            lemma_in_subtree_trans(node, 2 * node + 2, m);
        }
        lemma_winner_frame(lt1, lt2, cap, 2 * node + 1, lo, mid);
        lemma_winner_frame(lt1, lt2, cap, 2 * node + 2, mid, hi);
    }
}

/// The loser-tree invariant only depends on stored entries inside the
/// subtree and on the heads of leaves in its range.
pub proof fn lemma_wf_frame(
    lt1: Seq<usize>,
    lt2: Seq<usize>,
    ds: Seq<Vec<i64>>,
    ps1: Seq<usize>,
    ps2: Seq<usize>,
    cap: int,
    node: int,
    lo: int,
    hi: int,
)
    requires
        tree_pos(cap, node, lo, hi),
        is_power_of_two((hi - lo) as nat),
        lt1.len() == cap - 1,
        lt2.len() == cap - 1,
        ps1.len() == ps2.len(),
        ds.len() <= ps1.len(),
        forall|m: int| #[trigger] in_subtree(node, m) && 0 <= m < lt1.len() ==> lt1[m] == lt2[m],
        forall|d: int| lo <= d < hi && 0 <= d < ps1.len() ==> ps1[d] == ps2[d],
        tree_wf(lt1, ds, ps1, node, lo, hi),
    ensures
        tree_wf(lt2, ds, ps2, node, lo, hi),
    decreases hi - lo,
{
    if hi - lo > 1 {
        lemma_tree_pos_children(cap, node, lo, hi);
        let mid = (lo + hi) / 2;
        assert(in_subtree(node, node));
        assert(in_subtree(node, 2 * node + 1));
        assert(in_subtree(node, 2 * node + 2));
        assert forall|m: int| #[trigger] in_subtree(2 * node + 1, m) && 0 <= m < lt1.len()
            implies lt1[m] == lt2[m] by {
            lemma_in_subtree_trans(node, 2 * node + 1, m);
        }
        assert forall|m: int| #[trigger] in_subtree(2 * node + 2, m) && 0 <= m < lt1.len()
            implies lt1[m] == lt2[m] by {
            lemma_in_subtree_trans(node, 2 * node + 2, m);
        }
        lemma_wf_frame(lt1, lt2, ds, ps1, ps2, cap, 2 * node + 1, lo, mid);
        lemma_wf_frame(lt1, lt2, ds, ps1, ps2, cap, 2 * node + 2, mid, hi);
        lemma_winner_frame(lt1, lt2, cap, 2 * node + 1, lo, mid);
        lemma_winner_frame(lt1, lt2, cap, 2 * node + 2, mid, hi);
        lemma_winner_frame(lt1, lt2, cap, node, lo, hi);
        // The compared leaves lie inside [lo, hi), where the heads agree.
        lemma_winner_in_range(lt1, node, lo, hi);
        lemma_winner_in_range(lt1, 2 * node + 1, lo, mid);
        lemma_winner_in_range(lt1, 2 * node + 2, mid, hi);
        let w1 = subtree_winner(lt1, node, lo, hi);
        assert(lt1[node] == lt2[node]);
        assert(beats(ds, ps1, w1, lt1[node] as int));
        assert(leaf_val(ds, ps1, w1) == leaf_val(ds, ps2, w1));
        assert(leaf_val(ds, ps1, lt1[node] as int) == leaf_val(ds, ps2, lt1[node] as int));
    }
}

/// The invariant makes the tree's winner beat every leaf in its range: the
/// stored loser at each node is the other child's winner, so the chain of
/// comparisons reaches every leaf.
pub proof fn lemma_winner_beats_all(
    lt: Seq<usize>,
    ds: Seq<Vec<i64>>,
    ps: Seq<usize>,
    node: int,
    lo: int,
    hi: int,
)
    requires
        lo < hi,
        tree_wf(lt, ds, ps, node, lo, hi),
    ensures
        forall|e: int|
            lo <= e < hi ==> beats(ds, ps, subtree_winner(lt, node, lo, hi), e),
    decreases hi - lo,
{
    if hi - lo <= 1 {
        assert(subtree_winner(lt, node, lo, hi) == lo);
    } else {
        let mid = (lo + hi) / 2;
        let wl = subtree_winner(lt, 2 * node + 1, lo, mid);
        let wr = subtree_winner(lt, 2 * node + 2, mid, hi);
        let w = subtree_winner(lt, node, lo, hi);
        lemma_winner_beats_all(lt, ds, ps, 2 * node + 1, lo, mid);
        lemma_winner_beats_all(lt, ds, ps, 2 * node + 2, mid, hi);
        lemma_winner_in_range(lt, 2 * node + 1, lo, mid);
        lemma_winner_in_range(lt, 2 * node + 2, mid, hi);
        assert forall|e: int| lo <= e < hi implies beats(ds, ps, w, e) by {
            if lt[node] as int == wl {
                // The left winner lost: the right winner advanced.
                assert(w == wr);
                if e < mid {
                    lemma_beats_trans(ds, ps, w, wl, e);
                }
            } else {
                assert(w == wl);
                if e >= mid {
                    lemma_beats_trans(ds, ps, w, wr, e);
                }
            }
        }
    }
}

/// A valid tree position with at least two leaves has valid children and an
/// in-bounds node index.
pub proof fn lemma_tree_pos_children(cap: int, node: int, lo: int, hi: int)
    requires
        tree_pos(cap, node, lo, hi),
        hi - lo >= 2,
        is_power_of_two((hi - lo) as nat),
    ensures
        0 <= node <= cap - 2,
        tree_pos(cap, 2 * node + 1, lo, (lo + hi) / 2),
        tree_pos(cap, 2 * node + 2, (lo + hi) / 2, hi),
        is_power_of_two((((lo + hi) / 2) - lo) as nat),
        is_power_of_two((hi - (lo + hi) / 2) as nat),
        (lo + hi) / 2 == lo + (hi - lo) / 2,
{
    let w = hi - lo;
    assert(w % 2 == 0);
    let mid = (lo + hi) / 2;
    assert(mid == lo + w / 2);
    assert(mid - lo == w / 2);
    assert(hi - mid == w / 2);
    assert((2 * node + 2) * (w / 2) == (node + 1) * w) by (nonlinear_arith)
        requires
            w % 2 == 0,
            w >= 2,
    ;
    assert((2 * node + 3) * (w / 2) == (node + 1) * w + w / 2) by (nonlinear_arith)
        requires
            w % 2 == 0,
            w >= 2,
    ;
    assert(node >= 0) by (nonlinear_arith)
        requires
            (node + 1) * w == cap + lo,
            w >= 2,
            cap + lo > 0,
            0 <= lo,
            cap >= hi,
            hi - lo == w,
    ;
    assert(node <= cap - 2) by (nonlinear_arith)
        requires
            (node + 1) * w == cap + lo,
            w >= 2,
            0 <= lo,
            lo <= cap - w,
            hi - lo == w,
            hi <= cap,
    ;
}

// --- the remaining values of the runs -----------------------------------------

/// Multiset of the values of the first `n` runs.
pub open spec fn runs_multiset(ds: Seq<Vec<i64>>, n: int) -> Multiset<i64>
    decreases n,
{
    if n <= 0 {
        Multiset::empty()
    } else {
        runs_multiset(ds, n - 1).add(ds[n - 1]@.to_multiset())
    }
}

/// Multiset of all values of the runs.
pub open spec fn total_multiset(ds: Seq<Vec<i64>>) -> Multiset<i64> {
    runs_multiset(ds, ds.len() as int)
}

/// Multiset of the not-yet-consumed values of the first `n` runs.
pub open spec fn rem_of(ds: Seq<Vec<i64>>, ps: Seq<usize>, n: int) -> Multiset<i64>
    decreases n,
{
    if n <= 0 {
        Multiset::empty()
    } else {
        rem_of(ds, ps, n - 1).add(ds[n - 1]@.skip(ps[n - 1] as int).to_multiset())
    }
}

/// With every cursor at the start, everything remains.
pub proof fn lemma_rem_initial(ds: Seq<Vec<i64>>, ps: Seq<usize>, n: int)
    requires
        n <= ps.len(),
        forall|d: int| 0 <= d < n ==> ps[d] == 0,
    ensures
        rem_of(ds, ps, n) == runs_multiset(ds, n),
    decreases n,
{
    if n > 0 {
        lemma_rem_initial(ds, ps, n - 1);
        assert(ds[n - 1]@.skip(0) =~= ds[n - 1]@);
    }
}

/// The remainder only depends on the first `n` cursors.
pub proof fn lemma_rem_frame(ds: Seq<Vec<i64>>, ps1: Seq<usize>, ps2: Seq<usize>, n: int)
    requires
        forall|d: int| 0 <= d < n ==> ps1[d] == ps2[d],
    ensures
        rem_of(ds, ps1, n) == rem_of(ds, ps2, n),
    decreases n,
{
    if n > 0 {
        lemma_rem_frame(ds, ps1, ps2, n - 1);
    }
}

/// Consuming one value from the front of a suffix removes exactly it.
pub proof fn lemma_skip_multiset(s: Seq<i64>, p: int)
    requires
        0 <= p < s.len(),
    ensures
        s.skip(p).to_multiset() == s.skip(p + 1).to_multiset().insert(s[p]),
{
    broadcast use group_to_multiset_ensures;
    broadcast use vstd::multiset::group_multiset_axioms;

    assert(s.skip(p) =~= seq![s[p]] + s.skip(p + 1));
    lemma_multiset_commutative(seq![s[p]], s.skip(p + 1));
    assert(seq![s[p]] =~= Seq::<i64>::empty().push(s[p]));
    assert(Seq::<i64>::empty().push(s[p]).to_multiset() == Seq::<i64>::empty()
        .to_multiset().insert(s[p]));
    assert(Seq::<i64>::empty().to_multiset().len() == 0);
    assert(Seq::<i64>::empty().to_multiset() =~= Multiset::<i64>::empty());
    assert(s.skip(p).to_multiset() =~= s.skip(p + 1).to_multiset().insert(s[p]));
}

/// Advancing run `w`'s cursor by one removes that run's head from the
/// remainder.
pub proof fn lemma_rem_advance(
    ds: Seq<Vec<i64>>,
    ps_old: Seq<usize>,
    ps_new: Seq<usize>,
    w: int,
    n: int,
)
    requires
        0 <= w < n,
        n <= ps_old.len(),
        ps_new == ps_old.update(w, (ps_old[w] + 1) as usize),
        (ps_old[w] as int) + 1 <= usize::MAX,
        (ps_old[w] as int) < ds[w]@.len(),
    ensures
        rem_of(ds, ps_old, n) == rem_of(ds, ps_new, n).insert(ds[w]@[ps_old[w] as int]),
    decreases n,
{
    broadcast use vstd::multiset::group_multiset_axioms;

    if w == n - 1 {
        lemma_rem_frame(ds, ps_old, ps_new, n - 1);
        lemma_skip_multiset(ds[w]@, ps_old[w] as int);
        assert(ps_new[w] == ps_old[w] + 1);
        assert(rem_of(ds, ps_old, n) =~= rem_of(ds, ps_new, n).insert(ds[w]@[ps_old[w] as int]));
    } else {
        lemma_rem_advance(ds, ps_old, ps_new, w, n - 1);
        assert(ps_new[n - 1] == ps_old[n - 1]);
        assert(rem_of(ds, ps_old, n) =~= rem_of(ds, ps_new, n).insert(ds[w]@[ps_old[w] as int]));
    }
}

/// When every run is exhausted, nothing remains.
pub proof fn lemma_rem_exhausted(ds: Seq<Vec<i64>>, ps: Seq<usize>, n: int)
    requires
        n <= ds.len(),
        n <= ps.len(),
        forall|d: int| 0 <= d < n ==> leaf_val(ds, ps, d) is None,
        forall|d: int| 0 <= d < n ==> (ps[d] as int) <= ds[d]@.len(),
    ensures
        rem_of(ds, ps, n) == Multiset::<i64>::empty(),
    decreases n,
{
    broadcast use group_to_multiset_ensures;
    broadcast use vstd::multiset::group_multiset_axioms;

    if n > 0 {
        lemma_rem_exhausted(ds, ps, n - 1);
        assert(leaf_val(ds, ps, n - 1) is None);
        assert(ds[n - 1]@.skip(ps[n - 1] as int) =~= Seq::<i64>::empty());
        assert(ds[n - 1]@.skip(ps[n - 1] as int).to_multiset().len() == 0);
        assert(rem_of(ds, ps, n) =~= Multiset::<i64>::empty());
    }
}

/// Whatever beats every run's head is at most every remaining value.
pub proof fn lemma_rem_min(
    ds: Seq<Vec<i64>>,
    ps: Seq<usize>,
    n: int,
    w: int,
    v: i64,
)
    requires
        n <= ds.len(),
        n <= ps.len(),
        leaf_val(ds, ps, w) == Option::Some(v),
        forall|d: int| 0 <= d < n ==> beats(ds, ps, w, d),
        forall|d: int| 0 <= d < n ==> values_sorted((#[trigger] ds[d])@),
        forall|d: int| 0 <= d < n ==> (ps[d] as int) <= ds[d]@.len(),
    ensures
        forall|x: i64| #[trigger] rem_of(ds, ps, n).count(x) > 0 ==> v <= x,
    decreases n,
{
    broadcast use group_to_multiset_ensures;
    broadcast use vstd::multiset::group_multiset_axioms;

    if n > 0 {
        lemma_rem_min(ds, ps, n - 1, w, v);
        let tail = ds[n - 1]@.skip(ps[n - 1] as int);
        assert forall|x: i64| #[trigger] rem_of(ds, ps, n).count(x) > 0 implies v <= x by {
            if rem_of(ds, ps, n - 1).count(x) > 0 {
            } else {
                assert(tail.to_multiset().count(x) > 0);
                assert(tail.contains(x));
                let idx = choose|idx: int| 0 <= idx < tail.len() && tail[idx] == x;
                assert(tail[idx] == ds[n - 1]@[ps[n - 1] + idx]);
                assert(ds[n - 1]@[ps[n - 1] as int] <= ds[n - 1]@[ps[n - 1] + idx]);
                assert(leaf_val(ds, ps, n - 1) == Option::Some(ds[n - 1]@[ps[n - 1] as int]));
                assert(beats(ds, ps, w, n - 1));
            }
        }
    }
}

// --- the merge structure --------------------------------------------------------

/// A lazy k-way merge of sorted runs, backed by a loser tree.
pub struct Merge {
    dataset: Vec<Vec<i64>>,
    positions: Vec<usize>,
    winner_index: usize,
    loser_tree: Vec<usize>,
    cap: usize,
}

/// Reads the current head of leaf `d`; padding leaves and drained runs have
/// none.
fn head_of(dataset: &Vec<Vec<i64>>, positions: &Vec<usize>, d: usize) -> (v: Option<i64>)
    requires
        positions@.len() == dataset@.len(),
    ensures
        v == leaf_val(dataset@, positions@, d as int),
{
    if d < dataset.len() {
        let p = positions[d];
        if p < dataset[d].len() {
            Option::Some(dataset[d][p])
        } else {
            Option::None
        }
    } else {
        Option::None
    }
}

/// Compares two leaves' heads and returns the (winner, loser) pair; an
/// exhausted leaf loses to any live one.
fn choose_leaf(dataset: &Vec<Vec<i64>>, positions: &Vec<usize>, li: usize, ri: usize) -> (wl: (
    usize,
    usize,
))
    requires
        positions@.len() == dataset@.len(),
    ensures
        (wl.0 == li && wl.1 == ri) || (wl.0 == ri && wl.1 == li),
        beats(dataset@, positions@, wl.0 as int, wl.1 as int),
        // Ties favor the first argument: with equal heads (or two exhausted
        // leaves) the left contestant wins.
        beats(dataset@, positions@, li as int, ri as int) ==> wl.0 == li && wl.1 == ri,
        !beats(dataset@, positions@, li as int, ri as int) ==> wl.0 == ri && wl.1 == li,
{
    let lv = head_of(dataset, positions, li);
    let rv = head_of(dataset, positions, ri);
    match (lv, rv) {
        (Option::None, Option::None) => (li, ri),
        (Option::Some(_), Option::None) => (li, ri),
        (Option::None, Option::Some(_)) => (ri, li),
        (Option::Some(a), Option::Some(b)) => if a <= b {
            (li, ri)
        } else {
            (ri, li)
        },
    }
}

/// Builds the subtree over leaves `[lo, hi)` bottom-up, storing at each node
/// the loser of its children's winners, and returns the subtree winner.
fn build_subtree(
    node: usize,
    lo: usize,
    hi: usize,
    losers: &mut Vec<usize>,
    dataset: &Vec<Vec<i64>>,
    positions: &Vec<usize>,
    cap: usize,
) -> (w: usize)
    requires
        positions@.len() == dataset@.len(),
        cap <= usize::MAX / 2 + 1,
        tree_pos(cap as int, node as int, lo as int, hi as int),
        is_power_of_two((hi - lo) as nat),
        old(losers)@.len() == cap - 1,
    ensures
        final(losers)@.len() == cap - 1,
        forall|m: int|
            0 <= m < cap - 1 && !in_subtree(node as int, m) ==> final(losers)@[m] == old(
                losers,
            )@[m],
        forall|m: int|
            0 <= m < cap - 1 ==> final(losers)@[m] == old(losers)@[m] || (final(losers)@[m] as int)
                < cap,
        lo <= w < hi,
        w as int == subtree_winner(final(losers)@, node as int, lo as int, hi as int),
        tree_wf(final(losers)@, dataset@, positions@, node as int, lo as int, hi as int),
        // Ties favor the lower leaf index: no leaf before the winner matches
        // its head, so the winner is the least index among the minimal
        // leaves.
        forall|e: int| lo <= e < w ==> !beats(dataset@, positions@, e, w as int),
    decreases hi - lo,
{
    if hi - lo == 1 {
        return lo;
    }
    proof {
        lemma_tree_pos_children(cap as int, node as int, lo as int, hi as int);
    }
    let mid = lo + (hi - lo) / 2;
    let lw = build_subtree(2 * node + 1, lo, mid, losers, dataset, positions, cap);
    let ghost lt_left = losers@;
    let rw = build_subtree(2 * node + 2, mid, hi, losers, dataset, positions, cap);
    let ghost lt_right = losers@;
    let chosen = choose_leaf(dataset, positions, lw, rw);
    let w = chosen.0;
    let l = chosen.1;
    losers[node] = l;
    proof {
        let ltf = losers@;
        let ni = node as int;
        let loi = lo as int;
        let mi = mid as int;
        let hii = hi as int;
        assert(in_subtree(ni, ni));
        assert(in_subtree(ni, 2 * ni + 1));
        assert(in_subtree(ni, 2 * ni + 2));
        lemma_parent_outside_children(ni);

        // The right build and the final write leave the left subtree alone.
        assert forall|m: int| #[trigger] in_subtree(2 * ni + 1, m) && 0 <= m < cap - 1 implies
            ltf[m] == lt_left[m] by {
            lemma_siblings_disjoint(ni, m);
            lemma_in_subtree_ge(2 * ni + 1, m);
        }
        lemma_winner_frame(lt_left, ltf, cap as int, 2 * ni + 1, loi, mi);
        lemma_wf_frame(
            lt_left,
            ltf,
            dataset@,
            positions@,
            positions@,
            cap as int,
            2 * ni + 1,
            loi,
            mi,
        );

        // The final write leaves the right subtree alone.
        assert forall|m: int| #[trigger] in_subtree(2 * ni + 2, m) && 0 <= m < cap - 1 implies
            ltf[m] == lt_right[m] by {
            lemma_in_subtree_ge(2 * ni + 2, m);
        }
        lemma_winner_frame(lt_right, ltf, cap as int, 2 * ni + 2, mi, hii);
        lemma_wf_frame(
            lt_right,
            ltf,
            dataset@,
            positions@,
            positions@,
            cap as int,
            2 * ni + 2,
            mi,
            hii,
        );

        assert(subtree_winner(ltf, 2 * ni + 1, loi, mi) == lw);
        assert(subtree_winner(ltf, 2 * ni + 2, mi, hii) == rw);
        assert(ltf[ni] == l);
        assert(subtree_winner(ltf, ni, loi, hii) == w);

        // The lowest minimal leaf wins: within the winning side by the
        // recursive tie-break, and across sides because the losing side's
        // whole range is dominated by its own winner.
        lemma_winner_beats_all(ltf, dataset@, positions@, 2 * ni + 1, loi, mi);
        assert forall|e: int| loi <= e < w implies !beats(dataset@, positions@, e, w as int) by {
            if w == rw {
                assert(!beats(dataset@, positions@, lw as int, rw as int));
                if e < mi {
                    assert(beats(dataset@, positions@, lw as int, e));
                    if beats(dataset@, positions@, e, rw as int) {
                        lemma_beats_trans(dataset@, positions@, lw as int, e, rw as int);
                    }
                }
            }
        }

        // Anything this call wrote lies inside its own subtree.
        assert forall|m: int|
            0 <= m < cap - 1 && !in_subtree(ni, m) implies ltf[m] == old(losers)@[m] by {
            if in_subtree(2 * ni + 1, m) {
                lemma_in_subtree_trans(ni, 2 * ni + 1, m);
            }
            if in_subtree(2 * ni + 2, m) {
                lemma_in_subtree_trans(ni, 2 * ni + 2, m);
            }
        }
    }
    w
}

/// Replays the comparisons on the path from the advanced leaf `d` up to the
/// root of this subtree. On the way down the stored losers identify the
/// off-path winners; on the way back up each node re-compares and stores the
/// new loser. Each re-comparison puts the advanced side first, so on a tie
/// the advanced leaf retains the win — replays deterministically favor the
/// climbing side, not the lower index, since only the path is re-examined.
fn replay(
    node: usize,
    lo: usize,
    hi: usize,
    losers: &mut Vec<usize>,
    dataset: &Vec<Vec<i64>>,
    positions: &Vec<usize>,
    cap: usize,
    d: usize,
    ps0: Ghost<Seq<usize>>,
) -> (w: usize)
    requires
        positions@.len() == dataset@.len(),
        cap <= usize::MAX / 2 + 1,
        tree_pos(cap as int, node as int, lo as int, hi as int),
        is_power_of_two((hi - lo) as nat),
        old(losers)@.len() == cap - 1,
        forall|m: int| 0 <= m < cap - 1 ==> (#[trigger] old(losers)@[m] as int) < cap,
        lo <= d < hi,
        d as int == subtree_winner(old(losers)@, node as int, lo as int, hi as int),
        ps0@.len() == positions@.len(),
        forall|e: int| 0 <= e < positions@.len() && e != d ==> ps0@[e] == #[trigger] positions@[e],
        tree_wf(old(losers)@, dataset@, ps0@, node as int, lo as int, hi as int),
    ensures
        final(losers)@.len() == cap - 1,
        forall|m: int|
            0 <= m < cap - 1 && !in_subtree(node as int, m) ==> final(losers)@[m] == old(
                losers,
            )@[m],
        // Only the path from the advanced leaf to this subtree's root is
        // rewritten: every entry off that leaf's ancestor chain is unchanged.
        forall|m: int|
            0 <= m < cap - 1 && !in_subtree(m, d + cap - 1) ==> final(losers)@[m] == old(
                losers,
            )@[m],
        forall|m: int| 0 <= m < cap - 1 ==> (#[trigger] final(losers)@[m] as int) < cap,
        lo <= w < hi,
        w as int == subtree_winner(final(losers)@, node as int, lo as int, hi as int),
        tree_wf(final(losers)@, dataset@, positions@, node as int, lo as int, hi as int),
    decreases hi - lo,
{
    if hi - lo == 1 {
        return d;
    }
    proof {
        lemma_tree_pos_children(cap as int, node as int, lo as int, hi as int);
    }
    let mid = lo + (hi - lo) / 2;
    let ghost pre = losers@;
    let ghost ni = node as int;
    let ghost loi = lo as int;
    let ghost mi = mid as int;
    let ghost hii = hi as int;
    proof {
        lemma_winner_in_range(pre, 2 * ni + 1, loi, mi);
        lemma_winner_in_range(pre, 2 * ni + 2, mi, hii);
        lemma_parent_outside_children(ni);
        assert(in_subtree(ni, ni));
        assert(in_subtree(ni, 2 * ni + 1));
        assert(in_subtree(ni, 2 * ni + 2));
    }
    let ghost old_wl = subtree_winner(pre, 2 * ni + 1, loi, mi);
    let ghost old_wr = subtree_winner(pre, 2 * ni + 2, mi, hii);

    let sub_w = if d < mid {
        proof {
            // The advanced leaf won this subtree, so it won the left child,
            // and the stored loser is the right child's winner.
            assert(d as int == old_wl);
            assert(pre[ni] as int == old_wr);
        }
        replay(2 * node + 1, lo, mid, losers, dataset, positions, cap, d, ps0)
    } else {
        proof {
            assert(d as int == old_wr);
            assert(pre[ni] as int == old_wl);
        }
        replay(2 * node + 2, mid, hi, losers, dataset, positions, cap, d, ps0)
    };
    let ghost lt_mid = losers@;

    let opp = losers[node];
    let chosen = choose_leaf(dataset, positions, sub_w, opp);
    let w = chosen.0;
    let l = chosen.1;
    losers[node] = l;

    proof {
        let ltf = losers@;
        assert(ltf == lt_mid.update(ni, l));
        assert(lt_mid[ni] == pre[ni]);
        assert(opp == pre[ni]);

        if d < mi {
            // The node write sits above the left subtree.
            assert forall|m: int| #[trigger] in_subtree(2 * ni + 1, m) && 0 <= m < cap - 1 implies
                ltf[m] == lt_mid[m] by {
                lemma_in_subtree_ge(2 * ni + 1, m);
            }
            lemma_winner_frame(lt_mid, ltf, cap as int, 2 * ni + 1, loi, mi);
            lemma_wf_frame(
                lt_mid,
                ltf,
                dataset@,
                positions@,
                positions@,
                cap as int,
                2 * ni + 1,
                loi,
                mi,
            );
            assert(subtree_winner(ltf, 2 * ni + 1, loi, mi) == sub_w);
            assert(tree_wf(ltf, dataset@, positions@, 2 * ni + 1, loi, mi));

            // The right subtree is untouched by the replay and the write,
            // and the advanced leaf lies outside its range.
            assert forall|m: int| #[trigger] in_subtree(2 * ni + 2, m) && 0 <= m < cap - 1 implies
                ltf[m] == pre[m] by {
                lemma_in_subtree_ge(2 * ni + 2, m);
                if in_subtree(2 * ni + 1, m) {
                    lemma_siblings_disjoint(ni, m);
                }
            }
            lemma_winner_frame(pre, ltf, cap as int, 2 * ni + 2, mi, hii);
            lemma_wf_frame(
                pre,
                ltf,
                dataset@,
                ps0@,
                positions@,
                cap as int,
                2 * ni + 2,
                mi,
                hii,
            );
            assert(subtree_winner(ltf, 2 * ni + 2, mi, hii) == old_wr);
            assert(tree_wf(ltf, dataset@, positions@, 2 * ni + 2, mi, hii));
            assert(opp as int == old_wr);
            assert(subtree_winner(ltf, ni, loi, hii) == w);
        } else {
            assert forall|m: int| #[trigger] in_subtree(2 * ni + 2, m) && 0 <= m < cap - 1 implies
                ltf[m] == lt_mid[m] by {
                lemma_in_subtree_ge(2 * ni + 2, m);
            }
            lemma_winner_frame(lt_mid, ltf, cap as int, 2 * ni + 2, mi, hii);
            lemma_wf_frame(
                lt_mid,
                ltf,
                dataset@,
                positions@,
                positions@,
                cap as int,
                2 * ni + 2,
                mi,
                hii,
            );
            assert(subtree_winner(ltf, 2 * ni + 2, mi, hii) == sub_w);
            assert(tree_wf(ltf, dataset@, positions@, 2 * ni + 2, mi, hii));

            assert forall|m: int| #[trigger] in_subtree(2 * ni + 1, m) && 0 <= m < cap - 1 implies
                ltf[m] == pre[m] by {
                lemma_in_subtree_ge(2 * ni + 1, m);
                lemma_siblings_disjoint(ni, m);
            }
            lemma_winner_frame(pre, ltf, cap as int, 2 * ni + 1, loi, mi);
            lemma_wf_frame(
                pre,
                ltf,
                dataset@,
                ps0@,
                positions@,
                cap as int,
                2 * ni + 1,
                loi,
                mi,
            );
            assert(subtree_winner(ltf, 2 * ni + 1, loi, mi) == old_wl);
            assert(tree_wf(ltf, dataset@, positions@, 2 * ni + 1, loi, mi));
            assert(opp as int == old_wl);
            assert(subtree_winner(ltf, ni, loi, hii) == w);
        }

        assert forall|m: int|
            0 <= m < cap - 1 && !in_subtree(ni, m) implies ltf[m] == pre[m] by {
            if in_subtree(2 * ni + 1, m) {
                lemma_in_subtree_trans(ni, 2 * ni + 1, m);
            }
            if in_subtree(2 * ni + 2, m) {
                lemma_in_subtree_trans(ni, 2 * ni + 2, m);
            }
        }

        // The only entry this level touches is `node`, an ancestor of the
        // advanced leaf; deeper writes are on the path by the recursive
        // contract.
        lemma_leaf_on_path(cap as int, ni, loi, hii, d as int);
        assert forall|m: int|
            0 <= m < cap - 1 && !in_subtree(m, d + cap - 1) implies ltf[m] == pre[m] by {
            assert(m != ni);
            assert(lt_mid[m] == pre[m]);
        }
    }
    w
}


/// Doubling a power of two that is still below a machine-size bound stays
/// within the largest machine power of two.
proof fn lemma_pow2_double_bound(c: nat, k: nat)
    requires
        is_power_of_two(c),
        c < k,
        k <= usize::MAX / 2 + 1,
    ensures
        2 * c <= usize::MAX / 2 + 1,
{
    crate::parallel::lemma_pow2_log2(c);
    vstd::arithmetic::power2::lemma2_to64();
    vstd::arithmetic::power2::lemma2_to64_rest();
    let e = crate::parallel::log2(c);
    if usize::MAX == 0xFFFF_FFFF {
        assert(usize::MAX / 2 + 1 == vstd::arithmetic::power2::pow2(31));
        if e >= 31 {
            if e > 31 {
                vstd::arithmetic::power2::lemma_pow2_strictly_increases(31, e);
            }
            assert(false);
        }
        vstd::arithmetic::power2::lemma_pow2_unfold(e + 1);
        if e + 1 < 31 {
            vstd::arithmetic::power2::lemma_pow2_strictly_increases(e + 1, 31);
        }
    } else {
        assert(usize::MAX == 0xFFFF_FFFF_FFFF_FFFF);
        assert(usize::MAX / 2 + 1 == vstd::arithmetic::power2::pow2(63));
        if e >= 63 {
            if e > 63 {
                vstd::arithmetic::power2::lemma_pow2_strictly_increases(63, e);
            }
            assert(false);
        }
        vstd::arithmetic::power2::lemma_pow2_unfold(e + 1);
        if e + 1 < 63 {
            vstd::arithmetic::power2::lemma_pow2_strictly_increases(e + 1, 63);
        }
    }
}

impl Merge {
    /// The runs being merged, as handed to `new`.
    pub closed spec fn runs(self) -> Seq<Vec<i64>> {
        self.dataset@
    }

    /// The multiset of values not yet emitted.
    pub closed spec fn remaining(self) -> Multiset<i64> {
        rem_of(self.dataset@, self.positions@, self.dataset@.len() as int)
    }

    /// The structure's invariant: cursors in range, runs sorted, the loser
    /// tree well-formed, and the cached winner the tree's overall winner.
    pub closed spec fn wf(self) -> bool {
        let k = self.dataset@.len() as int;
        let cap = self.cap as int;
        &&& 1 <= k <= cap
        &&& self.positions@.len() == k
        &&& is_power_of_two(self.cap as nat)
        &&& self.cap <= usize::MAX / 2 + 1
        &&& self.loser_tree@.len() == cap - 1
        &&& (forall|d: int|
            0 <= d < k ==> (#[trigger] self.positions@[d] as int) <= self.dataset@[d]@.len())
        &&& (forall|d: int| 0 <= d < k ==> values_sorted((#[trigger] self.dataset@[d])@))
        &&& (forall|m: int| 0 <= m < cap - 1 ==> (#[trigger] self.loser_tree@[m] as int) < cap)
        &&& tree_wf(self.loser_tree@, self.dataset@, self.positions@, 0, 0, cap)
        &&& self.winner_index as int == subtree_winner(self.loser_tree@, 0, 0, cap)
    }

    /// Builds the merge over `dataset`'s runs: pads the leaf count to a
    /// power of two and plays the initial tournament.
    pub fn new(dataset: Vec<Vec<i64>>) -> (m: Merge)
        requires
            dataset@.len() >= 1,
            dataset@.len() <= usize::MAX / 2 + 1,
            forall|d: int| 0 <= d < dataset@.len() ==> values_sorted((#[trigger] dataset@[d])@),
        ensures
            m.wf(),
            m.runs() == dataset@,
            m.remaining() == total_multiset(dataset@),
    {
        let k = dataset.len();
        let mut cap: usize = 1;
        proof {
            assert(is_power_of_two(1nat));
        }
        while cap < k
            invariant
                k <= usize::MAX / 2 + 1,
                1 <= cap,
                cap <= usize::MAX / 2 + 1,
                is_power_of_two(cap as nat),
            decreases (if cap < k {
                k - cap
            } else {
                0int
            }),
        {
            proof {
                lemma_pow2_double_bound(cap as nat, k as nat);
                assert(is_power_of_two((2 * cap) as nat)) by {
                    assert((2 * cap) as nat % 2 == 0);
                    assert((2 * cap) as nat / 2 == cap as nat);
                }
            }
            cap = cap * 2;
        }

        let positions: Vec<usize> = vec![0usize; k];
        let mut loser_tree: Vec<usize> = vec![0usize; cap - 1];
        proof {
            assert(tree_pos(cap as int, 0, 0, cap as int)) by {
                assert(1 * (cap as int) == cap as int) by (nonlinear_arith);
            }
        }
        let winner_index = build_subtree(0, 0, cap, &mut loser_tree, &dataset, &positions, cap);
        proof {
            lemma_rem_initial(dataset@, positions@, dataset@.len() as int);
        }
        Merge { dataset, positions, winner_index, loser_tree, cap }
    }

    /// Emits the smallest remaining value, if any: it is the cached winner's
    /// head; the winner's cursor advances and the path to the root is
    /// replayed.
    pub fn next(&mut self) -> (r: Option<i64>)
        requires
            old(self).wf(),
        ensures
            final(self).wf(),
            final(self).runs() == old(self).runs(),
            match r {
                Option::None => {
                    &&& old(self).remaining().len() == 0
                    &&& final(self).remaining() == old(self).remaining()
                },
                Option::Some(v) => {
                    &&& old(self).remaining() == final(self).remaining().insert(v)
                    &&& old(self).remaining().count(v) > 0
                    &&& forall|x: i64| #[trigger] old(self).remaining().count(x) > 0 ==> v <= x
                },
            },
    {
        broadcast use vstd::multiset::group_multiset_axioms;

        let w = self.winner_index;
        let ghost k = self.dataset@.len() as int;
        let ghost capi = self.cap as int;
        proof {
            lemma_winner_beats_all(
                self.loser_tree@,
                self.dataset@,
                self.positions@,
                0,
                0,
                capi,
            );
            lemma_winner_in_range(self.loser_tree@, 0, 0, capi);
        }
        proof {
            assert(tree_pos(capi, 0, 0, capi)) by {
                assert(1 * capi == capi) by (nonlinear_arith);
            }
        }
        if w < self.dataset.len() {
            let p = self.positions[w];
            if p < self.dataset[w].len() {
                let value = self.dataset[w][p];
                let ghost ps_old = self.positions@;
                let ghost lt_old = self.loser_tree@;
                proof {
                    assert(leaf_val(self.dataset@, ps_old, w as int) == Option::Some(value));
                    lemma_rem_min(self.dataset@, ps_old, k, w as int, value);
                }
                self.positions[w] = p + 1;
                proof {
                    lemma_rem_advance(self.dataset@, ps_old, self.positions@, w as int, k);
                }
                let new_w = replay(
                    0,
                    0,
                    self.cap,
                    &mut self.loser_tree,
                    &self.dataset,
                    &self.positions,
                    self.cap,
                    w,
                    Ghost(ps_old),
                );
                self.winner_index = new_w;
                proof {
                    assert(old(self).remaining() == self.remaining().insert(value));
                }
                Option::Some(value)
            } else {
                proof {
                    // A winner with no head means every leaf is exhausted.
                    assert forall|d: int| 0 <= d < k implies leaf_val(
                        self.dataset@,
                        self.positions@,
                        d,
                    ) is None by {
                        assert(beats(self.dataset@, self.positions@, w as int, d));
                    }
                    lemma_rem_exhausted(self.dataset@, self.positions@, k);
                }
                Option::None
            }
        } else {
            proof {
                assert(leaf_val(self.dataset@, self.positions@, w as int) is None);
                assert forall|d: int| 0 <= d < k implies leaf_val(
                    self.dataset@,
                    self.positions@,
                    d,
                ) is None by {
                    assert(beats(self.dataset@, self.positions@, w as int, d));
                }
                lemma_rem_exhausted(self.dataset@, self.positions@, k);
            }
            Option::None
        }
    }

    /// Drains the merge to the end: for any k sorted runs, including empty
    /// ones and a single run, the result is sorted and holds exactly the
    /// multiset union of the runs' values.
    pub fn merged(self) -> (out: Vec<i64>)
        requires
            self.wf(),
        ensures
            values_sorted(out@),
            out@.to_multiset() == self.remaining(),
    {
        broadcast use vstd::multiset::group_multiset_axioms;
        broadcast use vstd::multiset::lemma_insert_len;
        broadcast use group_to_multiset_ensures;

        let mut m = self;
        let mut out: Vec<i64> = Vec::new();
        let mut done = false;
        proof {
            assert(out@.to_multiset().len() == 0);
            assert(out@.to_multiset() =~= Multiset::<i64>::empty());
            assert(self.remaining() =~= out@.to_multiset().add(m.remaining()));
        }
        while !done
            invariant
                m.wf(),
                values_sorted(out@),
                self.remaining() == out@.to_multiset().add(m.remaining()),
                forall|i: int, x: i64|
                    0 <= i < out@.len() && #[trigger] m.remaining().count(x) > 0 ==> #[trigger] out@[i]
                        <= x,
                done ==> m.remaining().len() == 0,
            decreases m.remaining().len() + if done {
                0int
            } else {
                1int
            },
        {
            let ghost out_pre = out@;
            let ghost rem_pre = m.remaining();
            match m.next() {
                Option::Some(v) => {
                    out.push(v);
                    proof {
                        assert(out@ =~= out_pre.push(v));
                        vstd::seq_lib::to_multiset_build(out_pre, v);
                        assert(out@.to_multiset() == out_pre.to_multiset().insert(v));
                        assert(rem_pre == m.remaining().insert(v));
                        assert(self.remaining() =~= out@.to_multiset().add(m.remaining()));
                        assert forall|i: int, x: i64|
                            0 <= i < out@.len() && #[trigger] m.remaining().count(x) > 0 implies
                            #[trigger] out@[i] <= x by {
                            assert(rem_pre.count(x) > 0);
                            if i < out_pre.len() {
                                assert(out@[i] == out_pre[i]);
                            } else {
                                assert(out@[i] == v);
                            }
                        }
                        assert forall|i: int, j: int| 0 <= i <= j < out@.len() implies out@[i]
                            <= out@[j] by {
                            if j == out@.len() - 1 && i < j {
                                assert(rem_pre.count(v) > 0);
                                assert(out_pre[i] <= v);
                            }
                        }
                    }
                },
                Option::None => {
                    done = true;
                },
            }
        }
        proof {
            assert(m.remaining().len() == 0);
            assert(m.remaining() =~= Multiset::<i64>::empty());
            assert(self.remaining() =~= out@.to_multiset());
        }
        out
    }
}

} // verus!
