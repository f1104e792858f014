//! The equi-join strategies: a nested-loop baseline, the sort-merge core,
//! and the two multi-worker sort-merge compositions built on top of it.
//!
//! All strategies are specified against one canonical join: every left tuple,
//! in input order, paired with every matching right tuple, in input order.

use vstd::prelude::*;
use vstd::seq_lib::lemma_multiset_commutative;
use vstd::multiset::Multiset;
use vstd::seq_lib::group_to_multiset_ensures;
use crate::tuples::Joined;
use crate::tuples::Tuple;

verus! {

/// The keys of `s` are in ascending order.
pub open spec fn key_sorted(s: Seq<Tuple>) -> bool {
    forall|i: int, j: int| 0 <= i <= j < s.len() ==> s[i].key <= s[j].key
}

/// The keys of the joined records `s` are in ascending order.
pub open spec fn joined_key_sorted(s: Seq<Joined>) -> bool {
    forall|i: int, j: int| 0 <= i <= j < s.len() ==> s[i].key <= s[j].key
}

/// The join partner a record came from on the left side.
pub open spec fn left_tuple(j: Joined) -> Tuple {
    Tuple { key: j.key, payload: j.left_payload }
}

/// The join partner a record came from on the right side.
pub open spec fn right_tuple(j: Joined) -> Tuple {
    Tuple { key: j.key, payload: j.right_payload }
}

/// How often `x` occurs in `s`.
pub open spec fn occurrences<A>(s: Seq<A>, x: A) -> nat
    decreases s.len(),
{
    if s.len() == 0 {
        0
    } else {
        occurrences(s.drop_last(), x) + if s.last() == x {
            1nat
        } else {
            0nat
        }
    }
}

/// How many tuples of `s` carry the key `k`.
pub open spec fn key_count(s: Seq<Tuple>, k: u64) -> nat
    decreases s.len(),
{
    if s.len() == 0 {
        0
    } else {
        key_count(s.drop_last(), k) + if s.last().key == k {
            1nat
        } else {
            0nat
        }
    }
}

/// The subsequence of `s` whose tuples carry the key `k`, in input order.
pub open spec fn key_filter(s: Seq<Tuple>, k: u64) -> Seq<Tuple>
    decreases s.len(),
{
    if s.len() == 0 {
        Seq::empty()
    } else {
        key_filter(s.drop_last(), k) + if s.last().key == k {
            seq![s.last()]
        } else {
            Seq::empty()
        }
    }
}

/// How many joined records of `s` carry the key `k`.
pub open spec fn joined_key_count(s: Seq<Joined>, k: u64) -> nat
    decreases s.len(),
{
    if s.len() == 0 {
        0
    } else {
        joined_key_count(s.drop_last(), k) + if s.last().key == k {
            1nat
        } else {
            0nat
        }
    }
}

/// All matches of the single left tuple `t` against `r`, in `r`'s order.
pub open spec fn row_join(t: Tuple, r: Seq<Tuple>) -> Seq<Joined>
    decreases r.len(),
{
    if r.len() == 0 {
        Seq::empty()
    } else {
        row_join(t, r.drop_last()) + if r.last().key == t.key {
            seq![Joined { key: t.key, left_payload: t.payload, right_payload: r.last().payload }]
        } else {
            Seq::empty()
        }
    }
}

/// The canonical equi-join of `l` and `r`: each left tuple in input order,
/// matched against every right tuple in input order. Every strategy's output
/// is specified against this sequence.
pub open spec fn join_seq(l: Seq<Tuple>, r: Seq<Tuple>) -> Seq<Joined>
    decreases l.len(),
{
    if l.len() == 0 {
        Seq::empty()
    } else {
        join_seq(l.drop_last(), r) + row_join(l.last(), r)
    }
}

// --- unfolding helpers ------------------------------------------------------

/// A left tuple with no matching key beyond position `c` of `r` finds all its
/// matches in the prefix `r.take(c)`.
pub proof fn lemma_row_join_prefix(t: Tuple, r: Seq<Tuple>, c: int)
    requires
        0 <= c <= r.len(),
        forall|m: int| c <= m < r.len() ==> (#[trigger] r[m]).key != t.key,
    ensures
        row_join(t, r) == row_join(t, r.take(c)),
    decreases r.len(),
{
    if r.len() == c {
        assert(r.take(c) =~= r);
    } else {
        assert(r.drop_last() =~= r.take(r.len() - 1));
        lemma_row_join_prefix(t, r.drop_last(), c);
        assert(r.drop_last().take(c) =~= r.take(c));
        assert(row_join(t, r) =~= row_join(t, r.drop_last()));
    }
}

/// A left tuple whose key occurs nowhere in `r` joins with nothing.
pub proof fn lemma_row_join_empty(t: Tuple, r: Seq<Tuple>)
    requires
        forall|m: int| 0 <= m < r.len() ==> (#[trigger] r[m]).key != t.key,
    ensures
        row_join(t, r) == Seq::<Joined>::empty(),
{
    lemma_row_join_prefix(t, r, 0);
    assert(r.take(0) =~= Seq::<Tuple>::empty());
}

/// Left tuples beyond position `c` that match nothing contribute nothing.
pub proof fn lemma_join_seq_prefix(l: Seq<Tuple>, r: Seq<Tuple>, c: int)
    requires
        0 <= c <= l.len(),
        forall|i: int| c <= i < l.len() ==> row_join(#[trigger] l[i], r) == Seq::<Joined>::empty(),
    ensures
        join_seq(l, r) == join_seq(l.take(c), r),
    decreases l.len(),
{
    if l.len() == c {
        assert(l.take(c) =~= l);
    } else {
        assert(l.drop_last() =~= l.take(l.len() - 1));
        assert(row_join(l[l.len() - 1], r) == Seq::<Joined>::empty());
        lemma_join_seq_prefix(l.drop_last(), r, c);
        assert(l.drop_last().take(c) =~= l.take(c));
        assert(join_seq(l, r) =~= join_seq(l.drop_last(), r));
    }
}

/// Every record produced by one left tuple carries that tuple's key.
pub proof fn lemma_row_join_keys(t: Tuple, r: Seq<Tuple>)
    ensures
        forall|n: int| 0 <= n < row_join(t, r).len() ==> (#[trigger] row_join(t, r)[n]).key
            == t.key,
    decreases r.len(),
{
    if r.len() > 0 {
        lemma_row_join_keys(t, r.drop_last());
        let pre = row_join(t, r.drop_last());
        assert forall|n: int| 0 <= n < row_join(t, r).len() implies (#[trigger] row_join(t, r)[n]).key
            == t.key by {
            if n < pre.len() {
                assert(row_join(t, r)[n] == pre[n]);
            }
        }
    }
}

// --- counting and permutation lemmas -----------------------------------------

pub proof fn lemma_occurrences_concat<A>(a: Seq<A>, b: Seq<A>, x: A)
    ensures
        occurrences(a + b, x) == occurrences(a, x) + occurrences(b, x),
    decreases b.len(),
{
    if b.len() == 0 {
        assert(a + b =~= a);
    } else {
        assert((a + b).drop_last() =~= a + b.drop_last());
        assert((a + b).last() == b.last());
        lemma_occurrences_concat(a, b.drop_last(), x);
    }
}

/// The recursive occurrence count agrees with the multiset count.
pub proof fn lemma_occurrences_is_count<A>(s: Seq<A>, x: A)
    ensures
        occurrences(s, x) == s.to_multiset().count(x),
    decreases s.len(),
{
    broadcast use group_to_multiset_ensures;
    broadcast use vstd::multiset::group_multiset_axioms;

    if s.len() == 0 {
        assert(s.to_multiset().len() == 0);
        assert(s.to_multiset() =~= Multiset::<A>::empty());
    } else {
        lemma_occurrences_is_count(s.drop_last(), x);
        assert(s.drop_last().push(s.last()) =~= s);
        assert(s.drop_last().push(s.last()).to_multiset() == s.drop_last().to_multiset().insert(
            s.last(),
        ));
    }
}

/// One left tuple's matches against `r`, counted: all of `r`'s copies of the
/// right partner, provided the left partner is `t` itself.
pub proof fn lemma_row_join_count(t: Tuple, r: Seq<Tuple>, j: Joined)
    ensures
        occurrences(row_join(t, r), j) == if t == left_tuple(j) {
            occurrences(r, right_tuple(j))
        } else {
            0nat
        },
    decreases r.len(),
{
    if r.len() > 0 {
        lemma_row_join_count(t, r.drop_last(), j);
        let piece: Seq<Joined> = if r.last().key == t.key {
            seq![Joined { key: t.key, left_payload: t.payload, right_payload: r.last().payload }]
        } else {
            Seq::empty()
        };
        lemma_occurrences_concat(row_join(t, r.drop_last()), piece, j);
        if r.last().key == t.key {
            let e = Joined { key: t.key, left_payload: t.payload, right_payload: r.last().payload };
            assert(occurrences(Seq::<Joined>::empty(), j) == 0);
            assert(seq![e].drop_last() =~= Seq::<Joined>::empty());
            assert(seq![e].last() == e);
            assert(occurrences(piece, j) == if e == j {
                1nat
            } else {
                0nat
            });
        }
    }
}

/// Duplicate handling, counted per record: a record appears in the
/// canonical join once for every pairing of its left partner's copies with
/// its right partner's copies — `m` copies on the left and `n` on the right
/// yield `m * n` joined records.
pub proof fn lemma_join_seq_count(l: Seq<Tuple>, r: Seq<Tuple>, j: Joined)
    ensures
        occurrences(join_seq(l, r), j) == occurrences(l, left_tuple(j)) * occurrences(
            r,
            right_tuple(j),
        ),
    decreases l.len(),
{
    if l.len() > 0 {
        lemma_join_seq_count(l.drop_last(), r, j);
        lemma_occurrences_concat(join_seq(l.drop_last(), r), row_join(l.last(), r), j);
        lemma_row_join_count(l.last(), r, j);
        let a = occurrences(l.drop_last(), left_tuple(j));
        let b = occurrences(r, right_tuple(j));
        assert(occurrences(join_seq(l, r), j) == occurrences(join_seq(l.drop_last(), r), j)
            + occurrences(row_join(l.last(), r), j));
        if l.last() == left_tuple(j) {
            assert(occurrences(row_join(l.last(), r), j) == b);
            assert(occurrences(l, left_tuple(j)) == a + 1);
            assert((a + 1) * b == a * b + b) by (nonlinear_arith);
        } else {
            assert(occurrences(row_join(l.last(), r), j) == 0);
            assert(occurrences(l, left_tuple(j)) == a);
        }
    } else {
        assert(occurrences(join_seq(l, r), j) == 0);
        assert(occurrences(l, left_tuple(j)) == 0);
    }
}

pub proof fn lemma_joined_key_count_concat(a: Seq<Joined>, b: Seq<Joined>, k: u64)
    ensures
        joined_key_count(a + b, k) == joined_key_count(a, k) + joined_key_count(b, k),
    decreases b.len(),
{
    if b.len() == 0 {
        assert(a + b =~= a);
    } else {
        assert((a + b).drop_last() =~= a + b.drop_last());
        assert((a + b).last() == b.last());
        lemma_joined_key_count_concat(a, b.drop_last(), k);
    }
}

/// One left tuple's row carries its own key exactly as often as the right
/// side carries it.
pub proof fn lemma_row_join_key_count(t: Tuple, r: Seq<Tuple>, k: u64)
    ensures
        joined_key_count(row_join(t, r), k) == if t.key == k {
            key_count(r, k)
        } else {
            0nat
        },
    decreases r.len(),
{
    if r.len() > 0 {
        lemma_row_join_key_count(t, r.drop_last(), k);
        let piece: Seq<Joined> = if r.last().key == t.key {
            seq![Joined { key: t.key, left_payload: t.payload, right_payload: r.last().payload }]
        } else {
            Seq::empty()
        };
        lemma_joined_key_count_concat(row_join(t, r.drop_last()), piece, k);
        if r.last().key == t.key {
            let e = Joined { key: t.key, left_payload: t.payload, right_payload: r.last().payload };
            assert(joined_key_count(Seq::<Joined>::empty(), k) == 0);
            assert(seq![e].drop_last() =~= Seq::<Joined>::empty());
            assert(seq![e].last() == e);
        }
    }
}

/// Sort-merge duplicate handling: a key appearing `m` times on the left and
/// `n` times on the right yields exactly `m * n` joined records for that
/// key, the full cross product of the two duplicate groups.
pub proof fn lemma_join_duplicate_keys(l: Seq<Tuple>, r: Seq<Tuple>, k: u64)
    ensures
        joined_key_count(join_seq(l, r), k) == key_count(l, k) * key_count(r, k),
    decreases l.len(),
{
    if l.len() > 0 {
        lemma_join_duplicate_keys(l.drop_last(), r, k);
        lemma_joined_key_count_concat(join_seq(l.drop_last(), r), row_join(l.last(), r), k);
        lemma_row_join_key_count(l.last(), r, k);
        let a = key_count(l.drop_last(), k);
        let b = key_count(r, k);
        if l.last().key == k {
            assert((a + 1) * b == a * b + b) by (nonlinear_arith);
        }
    } else {
        assert(joined_key_count(join_seq(l, r), k) == 0);
        assert(key_count(l, k) == 0);
    }
}

/// The subsequence of `s` whose records carry the key `k`, in emission
/// order.
pub open spec fn joined_key_filter(s: Seq<Joined>, k: u64) -> Seq<Joined>
    decreases s.len(),
{
    if s.len() == 0 {
        Seq::empty()
    } else {
        joined_key_filter(s.drop_last(), k) + if s.last().key == k {
            seq![s.last()]
        } else {
            Seq::empty()
        }
    }
}

pub proof fn lemma_joined_key_filter_concat(a: Seq<Joined>, b: Seq<Joined>, k: u64)
    ensures
        joined_key_filter(a + b, k) == joined_key_filter(a, k) + joined_key_filter(b, k),
    decreases b.len(),
{
    if b.len() == 0 {
        assert(a + b =~= a);
        assert(joined_key_filter(a, k) + joined_key_filter(b, k) =~= joined_key_filter(a, k));
    } else {
        assert((a + b).drop_last() =~= a + b.drop_last());
        assert((a + b).last() == b.last());
        lemma_joined_key_filter_concat(a, b.drop_last(), k);
        assert(joined_key_filter(a + b, k) =~= joined_key_filter(a, k) + joined_key_filter(b, k));
    }
}

/// A row joins one key only: filtering it by that key keeps it whole, and by
/// any other key empties it.
pub proof fn lemma_row_join_filter(t: Tuple, r: Seq<Tuple>, k: u64)
    ensures
        joined_key_filter(row_join(t, r), k) == if t.key == k {
            row_join(t, r)
        } else {
            Seq::<Joined>::empty()
        },
    decreases r.len(),
{
    if r.len() == 0 {
    } else {
        lemma_row_join_filter(t, r.drop_last(), k);
        let piece: Seq<Joined> = if r.last().key == t.key {
            seq![Joined { key: t.key, left_payload: t.payload, right_payload: r.last().payload }]
        } else {
            Seq::empty()
        };
        lemma_joined_key_filter_concat(row_join(t, r.drop_last()), piece, k);
        if r.last().key == t.key {
            let e = Joined { key: t.key, left_payload: t.payload, right_payload: r.last().payload };
            assert(joined_key_filter(Seq::<Joined>::empty(), k) == Seq::<Joined>::empty());
            assert(seq![e].drop_last() =~= Seq::<Joined>::empty());
            assert(seq![e].last() == e);
            if t.key == k {
                assert(joined_key_filter(piece, k) =~= piece);
            } else {
                assert(joined_key_filter(piece, k) =~= Seq::<Joined>::empty());
            }
        }
        if t.key == k {
            assert(joined_key_filter(row_join(t, r), k) =~= row_join(t, r));
        } else {
            assert(joined_key_filter(row_join(t, r), k) =~= Seq::<Joined>::empty());
        }
    }
}

/// A left tuple's matches all come from its own key's group on the right.
pub proof fn lemma_row_join_key_group(t: Tuple, r: Seq<Tuple>)
    ensures
        row_join(t, r) == row_join(t, key_filter(r, t.key)),
    decreases r.len(),
{
    if r.len() > 0 {
        lemma_row_join_key_group(t, r.drop_last());
        if r.last().key == t.key {
            assert(key_filter(r, t.key) =~= key_filter(r.drop_last(), t.key).push(r.last()));
            assert(key_filter(r, t.key).drop_last() =~= key_filter(r.drop_last(), t.key));
            assert(key_filter(r, t.key).last() == r.last());
            assert(row_join(t, key_filter(r, t.key)) =~= row_join(t, r));
        } else {
            assert(key_filter(r, t.key) =~= key_filter(r.drop_last(), t.key));
            assert(row_join(t, r) =~= row_join(t, r.drop_last()));
        }
    }
}

/// Restricting the canonical join to one key joins the two sides' groups of
/// that key: each key's output is the cross product of its duplicate groups,
/// in input order on both sides.
pub proof fn lemma_join_seq_key_filter(l: Seq<Tuple>, r: Seq<Tuple>, k: u64)
    ensures
        joined_key_filter(join_seq(l, r), k) == join_seq(key_filter(l, k), key_filter(r, k)),
    decreases l.len(),
{
    if l.len() == 0 {
    } else {
        lemma_join_seq_key_filter(l.drop_last(), r, k);
        lemma_joined_key_filter_concat(join_seq(l.drop_last(), r), row_join(l.last(), r), k);
        lemma_row_join_filter(l.last(), r, k);
        if l.last().key == k {
            lemma_row_join_key_group(l.last(), r);
            assert(key_filter(l, k) =~= key_filter(l.drop_last(), k).push(l.last()));
            assert(key_filter(l, k).drop_last() =~= key_filter(l.drop_last(), k));
            assert(key_filter(l, k).last() == l.last());
            assert(joined_key_filter(join_seq(l, r), k) =~= join_seq(
                key_filter(l, k),
                key_filter(r, k),
            ));
        } else {
            assert(key_filter(l, k) =~= key_filter(l.drop_last(), k));
            assert(joined_key_filter(join_seq(l, r), k) =~= join_seq(
                key_filter(l, k),
                key_filter(r, k),
            ));
        }
    }
}

/// The canonical join's multiset only depends on the input multisets:
/// permuting either relation permutes the output.
pub proof fn lemma_join_seq_multiset_permuted(
    l1: Seq<Tuple>,
    r1: Seq<Tuple>,
    l2: Seq<Tuple>,
    r2: Seq<Tuple>,
)
    requires
        l1.to_multiset() == l2.to_multiset(),
        r1.to_multiset() == r2.to_multiset(),
    ensures
        join_seq(l1, r1).to_multiset() == join_seq(l2, r2).to_multiset(),
{
    assert forall|j: Joined| #[trigger] join_seq(l1, r1).to_multiset().count(j) == join_seq(
        l2,
        r2,
    ).to_multiset().count(j) by {
        lemma_join_seq_count(l1, r1, j);
        lemma_join_seq_count(l2, r2, j);
        lemma_occurrences_is_count(l1, left_tuple(j));
        lemma_occurrences_is_count(l2, left_tuple(j));
        lemma_occurrences_is_count(r1, right_tuple(j));
        lemma_occurrences_is_count(r2, right_tuple(j));
        lemma_occurrences_is_count(join_seq(l1, r1), j);
        lemma_occurrences_is_count(join_seq(l2, r2), j);
    }
    assert(join_seq(l1, r1).to_multiset() =~= join_seq(l2, r2).to_multiset());
}

/// Joining against an empty right relation yields nothing.
pub proof fn lemma_join_seq_empty_right(l: Seq<Tuple>)
    ensures
        join_seq(l, Seq::<Tuple>::empty()) == Seq::<Joined>::empty(),
    decreases l.len(),
{
    if l.len() > 0 {
        lemma_join_seq_empty_right(l.drop_last());
        assert(join_seq(l, Seq::<Tuple>::empty()) =~= Seq::<Joined>::empty());
    }
}

pub proof fn lemma_row_join_concat(t: Tuple, r1: Seq<Tuple>, r2: Seq<Tuple>)
    ensures
        row_join(t, r1 + r2) == row_join(t, r1) + row_join(t, r2),
    decreases r2.len(),
{
    if r2.len() == 0 {
        assert(r1 + r2 =~= r1);
        assert(row_join(t, r1) + row_join(t, r2) =~= row_join(t, r1));
    } else {
        lemma_row_join_concat(t, r1, r2.drop_last());
        assert((r1 + r2).drop_last() =~= r1 + r2.drop_last());
        assert((r1 + r2).last() == r2.last());
        assert(row_join(t, r1 + r2) =~= row_join(t, r1) + row_join(t, r2));
    }
}

/// Splitting the left relation splits the join at the same point.
pub proof fn lemma_join_seq_concat_left(l1: Seq<Tuple>, l2: Seq<Tuple>, r: Seq<Tuple>)
    ensures
        join_seq(l1 + l2, r) == join_seq(l1, r) + join_seq(l2, r),
    decreases l2.len(),
{
    if l2.len() == 0 {
        assert(l1 + l2 =~= l1);
        assert(join_seq(l1, r) + join_seq(l2, r) =~= join_seq(l1, r));
    } else {
        lemma_join_seq_concat_left(l1, l2.drop_last(), r);
        assert((l1 + l2).drop_last() =~= l1 + l2.drop_last());
        assert((l1 + l2).last() == l2.last());
        assert(join_seq(l1 + l2, r) =~= join_seq(l1, r) + join_seq(l2, r));
    }
}

/// Splitting the right relation preserves the join's multiset: the emission
/// order interleaves differently, but no record appears or disappears.
pub proof fn lemma_join_seq_concat_right(l: Seq<Tuple>, r1: Seq<Tuple>, r2: Seq<Tuple>)
    ensures
        join_seq(l, r1 + r2).to_multiset() == join_seq(l, r1).to_multiset().add(
            join_seq(l, r2).to_multiset(),
        ),
    decreases l.len(),
{
    broadcast use group_to_multiset_ensures;
    broadcast use vstd::multiset::group_multiset_axioms;
    broadcast use vstd::multiset::lemma_multiset_empty_len;

    if l.len() == 0 {
    } else {
        lemma_join_seq_concat_right(l.drop_last(), r1, r2);
        lemma_row_join_concat(l.last(), r1, r2);
        lemma_multiset_commutative(join_seq(l.drop_last(), r1 + r2), row_join(l.last(), r1 + r2));
        lemma_multiset_commutative(row_join(l.last(), r1), row_join(l.last(), r2));
        lemma_multiset_commutative(join_seq(l.drop_last(), r1), row_join(l.last(), r1));
        lemma_multiset_commutative(join_seq(l.drop_last(), r2), row_join(l.last(), r2));
        assert(join_seq(l, r1 + r2).to_multiset() =~= join_seq(l, r1).to_multiset().add(
            join_seq(l, r2).to_multiset(),
        ));
    }
}

/// All keys in the join of `l` against anything stay below any bound on
/// `l`'s keys.
pub proof fn lemma_join_seq_keys_le(l: Seq<Tuple>, r: Seq<Tuple>, k: u64)
    requires
        forall|i: int| 0 <= i < l.len() ==> (#[trigger] l[i]).key <= k,
    ensures
        forall|n: int| 0 <= n < join_seq(l, r).len() ==> (#[trigger] join_seq(l, r)[n]).key <= k,
    decreases l.len(),
{
    if l.len() > 0 {
        assert(forall|i: int| 0 <= i < l.drop_last().len() ==> (#[trigger] l.drop_last()[i]).key <= k);
        lemma_join_seq_keys_le(l.drop_last(), r, k);
        lemma_row_join_keys(l.last(), r);
        let pre = join_seq(l.drop_last(), r);
        let row = row_join(l.last(), r);
        assert forall|n: int| 0 <= n < join_seq(l, r).len() implies (#[trigger] join_seq(l, r)[n]).key
            <= k by {
            if n < pre.len() {
                assert(join_seq(l, r)[n] == pre[n]);
            } else {
                assert(join_seq(l, r)[n] == row[n - pre.len()]);
            }
        }
    }
}

/// On a key-sorted left relation the canonical join emits its records in
/// ascending key order.
pub proof fn lemma_join_seq_key_sorted(l: Seq<Tuple>, r: Seq<Tuple>)
    requires
        key_sorted(l),
    ensures
        joined_key_sorted(join_seq(l, r)),
    decreases l.len(),
{
    if l.len() > 0 {
        lemma_join_seq_key_sorted(l.drop_last(), r);
        lemma_row_join_keys(l.last(), r);
        lemma_join_seq_keys_le(l.drop_last(), r, l.last().key);
        let pre = join_seq(l.drop_last(), r);
        let row = row_join(l.last(), r);
        assert forall|a: int, b: int|
            0 <= a <= b < join_seq(l, r).len() implies (#[trigger] join_seq(l, r)[a]).key
            <= (#[trigger] join_seq(l, r)[b]).key by {
            if a < pre.len() {
                assert(join_seq(l, r)[a] == pre[a]);
            } else {
                assert(join_seq(l, r)[a] == row[a - pre.len()]);
            }
            if b < pre.len() {
                assert(join_seq(l, r)[b] == pre[b]);
            } else {
                assert(join_seq(l, r)[b] == row[b - pre.len()]);
            }
        }
    }
}

// --- the nested-loop baseline ------------------------------------------------

/// Compares every pair of tuples and keeps the key matches; the baseline that
/// defines what all other strategies must produce.
pub fn nested_loop_join(left: &Vec<Tuple>, right: &Vec<Tuple>) -> (output: Vec<Joined>)
    ensures
        output@ == join_seq(left@, right@),
{
    let mut output: Vec<Joined> = Vec::new();

    let mut i: usize = 0;
    while i < left.len()
        invariant
            0 <= i <= left@.len(),
            output@ == join_seq(left@.take(i as int), right@),
        decreases left@.len() - i,
    {
        let lt = left[i];
        let mut j: usize = 0;
        while j < right.len()
            invariant
                0 <= i < left@.len(),
                0 <= j <= right@.len(),
                lt == left@[i as int],
                output@ == join_seq(left@.take(i as int), right@) + row_join(
                    lt,
                    right@.take(j as int),
                ),
            decreases right@.len() - j,
        {
            let rt = right[j];
            proof {
                assert(right@.take(j + 1).drop_last() =~= right@.take(j as int));
                assert(right@.take(j + 1).last() == right@[j as int]);
            }
            if lt.key == rt.key {
                output.push(Joined::new(lt.key, lt.payload, rt.payload));
            }
            j += 1;
        }
        proof {
            assert(right@.take(right@.len() as int) =~= right@);
            assert(left@.take(i + 1).drop_last() =~= left@.take(i as int));
            assert(left@.take(i + 1).last() == left@[i as int]);
        }
        i += 1;
    }
    proof {
        assert(left@.take(left@.len() as int) =~= left@);
    }
    output
}

// --- the sort-merge core -----------------------------------------------------

/// Merges two key-sorted runs and appends every key match to `output`,
/// emitting each group of duplicate keys as a full cross product. On sorted
/// inputs this produces exactly the canonical join sequence.
pub fn merge_join_sorted(left: &[Tuple], right: &[Tuple], output: &mut Vec<Joined>)
    requires
        key_sorted(left@),
        key_sorted(right@),
    ensures
        final(output)@ == old(output)@ + join_seq(left@, right@),
{
    let ghost out0 = output@;
    let llen = left.len();
    let rlen = right.len();
    let mut li: usize = 0;
    let mut ri: usize = 0;

    while li < llen && ri < rlen
        invariant
            key_sorted(left@),
            key_sorted(right@),
            llen == left@.len(),
            rlen == right@.len(),
            0 <= li <= llen,
            0 <= ri <= rlen,
            output@ == out0 + join_seq(left@.take(li as int), right@),
            forall|m: int|
                0 <= m < ri && li < llen ==> (#[trigger] right@[m]).key < left@[li as int].key,
        decreases llen - li + rlen - ri,
    {
        if left[li].key < right[ri].key {
            // This left tuple matches nothing: everything before `ri` has a
            // smaller key and everything from `ri` on has a larger one.
            proof {
                assert forall|m: int| 0 <= m < right@.len() implies (#[trigger] right@[m]).key
                    != left@[li as int].key by {
                    if m >= ri {
                        assert(right@[ri as int].key <= right@[m].key);
                    }
                }
                lemma_row_join_empty(left@[li as int], right@);
                assert(left@.take(li + 1).drop_last() =~= left@.take(li as int));
                assert(join_seq(left@.take(li + 1), right@) =~= join_seq(
                    left@.take(li as int),
                    right@,
                ) + row_join(left@[li as int], right@));
                assert(output@ =~= out0 + join_seq(left@.take(li + 1), right@));
            }
            li += 1;
        } else if left[li].key > right[ri].key {
            ri += 1;
        } else {
            let key = left[li].key;

            let l_start = li;
            while li < llen && left[li].key == key
                invariant
                    key_sorted(left@),
                    llen == left@.len(),
                    l_start <= li <= llen,
                    forall|m: int| l_start <= m < li ==> (#[trigger] left@[m]).key == key,
                decreases llen - li,
            {
                li += 1;
            }

            let r_start = ri;
            while ri < rlen && right[ri].key == key
                invariant
                    key_sorted(right@),
                    rlen == right@.len(),
                    r_start <= ri <= rlen,
                    forall|m: int| r_start <= m < ri ==> (#[trigger] right@[m]).key == key,
                decreases rlen - ri,
            {
                ri += 1;
            }

            // All matches for keys in this run lie in right[r_start..ri].
            proof {
                assert(forall|m: int| 0 <= m < r_start ==> (#[trigger] right@[m]).key < key);
                assert(forall|m: int|
                    ri <= m < rlen ==> (#[trigger] right@[m]).key > key) by {
                    if ri < rlen {
                        assert(right@[ri as int].key != key);
                        assert(right@[r_start as int].key <= right@[ri as int].key);
                    }
                }
            }

            let mut i = l_start;
            while i < li
                invariant
                    key_sorted(left@),
                    key_sorted(right@),
                    llen == left@.len(),
                    rlen == right@.len(),
                    l_start <= i <= li,
                    li <= llen,
                    r_start <= ri <= rlen,
                    forall|m: int| l_start <= m < li ==> (#[trigger] left@[m]).key == key,
                    forall|m: int| r_start <= m < ri ==> (#[trigger] right@[m]).key == key,
                    forall|m: int| 0 <= m < r_start ==> (#[trigger] right@[m]).key < key,
                    forall|m: int| ri <= m < rlen ==> (#[trigger] right@[m]).key > key,
                    output@ == out0 + join_seq(left@.take(i as int), right@),
                decreases li - i,
            {
                let lt = left[i];
                let mut j = r_start;
                proof {
                    assert(lt.key == key);
                    lemma_row_join_empty(lt, right@.take(r_start as int));
                    assert(row_join(lt, right@.take(r_start as int)) =~= Seq::<Joined>::empty());
                }
                while j < ri
                    invariant
                        key_sorted(right@),
                        rlen == right@.len(),
                        r_start <= j <= ri,
                        ri <= rlen,
                        lt.key == key,
                        lt == left@[i as int],
                        0 <= i < left@.len(),
                        forall|m: int| r_start <= m < ri ==> (#[trigger] right@[m]).key == key,
                        output@ == out0 + join_seq(left@.take(i as int), right@) + row_join(
                            lt,
                            right@.take(j as int),
                        ),
                    decreases ri - j,
                {
                    let rt = right[j];
                    proof {
                        assert(right@.take(j + 1).drop_last() =~= right@.take(j as int));
                        assert(right@.take(j + 1).last() == right@[j as int]);
                    }
                    output.push(Joined::new(key, lt.payload, rt.payload));
                    j += 1;
                }
                proof {
                    // Matches beyond the run contribute nothing, so the row is
                    // complete at `ri`.
                    assert forall|m: int| ri <= m < right@.len() implies (#[trigger] right@[m]).key
                        != lt.key by {}
                    lemma_row_join_prefix(lt, right@, ri as int);
                    assert(left@.take(i + 1).drop_last() =~= left@.take(i as int));
                    assert(left@.take(i + 1).last() == left@[i as int]);
                    assert(output@ =~= out0 + join_seq(left@.take(i + 1), right@));
                }
                i += 1;
            }

            proof {
                // Re-establish the boundary: everything consumed on the right
                // sits strictly below the next left key.
                if li < llen {
                    assert(left@[l_start as int].key == key);
                    assert(left@[li as int].key != key);
                    assert(left@[l_start as int].key <= left@[li as int].key);
                    assert forall|m: int| 0 <= m < ri implies (#[trigger] right@[m]).key
                        < left@[li as int].key by {
                        if m < r_start {
                            assert(right@[m].key < key);
                        } else {
                            assert(right@[m].key == key);
                        }
                    }
                }
            }
        }
    }

    // One side is exhausted; the remaining left tuples match nothing.
    proof {
        if li < llen {
            assert(ri == rlen);
            assert forall|n: int| li <= n < left@.len() implies row_join(
                #[trigger] left@[n],
                right@,
            ) == Seq::<Joined>::empty() by {
                assert(left@[li as int].key <= left@[n].key);
                assert forall|m: int| 0 <= m < right@.len() implies (#[trigger] right@[m]).key
                    != left@[n].key by {}
                lemma_row_join_empty(left@[n], right@);
            }
            lemma_join_seq_prefix(left@, right@, li as int);
        } else {
            assert(left@.take(li as int) =~= left@);
        }
    }
}

/// Sorts both relations by key and runs the sort-merge core once over the
/// whole of each: the simplest complete sort-merge join.
pub fn basic_sort_merge_join(left: Vec<Tuple>, right: Vec<Tuple>) -> (output: Vec<Joined>)
    ensures
        joined_key_sorted(output@),
        output@.to_multiset() == join_seq(left@, right@).to_multiset(),
        forall|k: u64| #[trigger] joined_key_filter(output@, k) == join_seq(
            key_filter(left@, k),
            key_filter(right@, k),
        ),
{
    let ghost l0 = left@;
    let ghost r0 = right@;
    let mut left = left;
    let mut right = right;
    crate::parallel::sort_tuples_by_key(&mut left);
    crate::parallel::sort_tuples_by_key(&mut right);

    let mut output: Vec<Joined> = Vec::new();
    merge_join_sorted(left.as_slice(), right.as_slice(), &mut output);
    proof {
        assert(output@ =~= join_seq(left@, right@));
        lemma_join_seq_key_sorted(left@, right@);
        lemma_join_seq_multiset_permuted(left@, right@, l0, r0);
        assert forall|k: u64| #[trigger] joined_key_filter(output@, k) == join_seq(
            key_filter(l0, k),
            key_filter(r0, k),
        ) by {
            lemma_join_seq_key_filter(left@, right@, k);
        }
    }
    output
}

/// All per-worker outputs, worker after worker.
pub open spec fn flatten_outputs(s: Seq<Vec<Joined>>) -> Seq<Joined>
    decreases s.len(),
{
    if s.len() == 0 {
        Seq::empty()
    } else {
        flatten_outputs(s.drop_last()) + s.last()@
    }
}

/// The basic multi-worker sort-merge join: the public (right) relation is
/// sorted in chunked runs, the private (left) relation is cut into one chunk
/// per worker, and every worker sorts its own chunk and merge-joins it
/// against each public run in turn. A deliberately naive baseline: each
/// worker still scans the entire public relation.
pub fn basic_mpsm(left: Vec<Tuple>, right: Vec<Tuple>, thread_count: usize) -> (outputs: Vec<
    Vec<Joined>,
>)
    requires
        thread_count >= 1,
    ensures
        outputs@.len() <= thread_count,
        // One output list per non-empty private chunk: the worker count is
        // the number of chunk sizes needed to cover the private relation.
        left@.len() == 0 ==> outputs@.len() == 0,
        left@.len() > 0 ==> 1 <= outputs@.len() && (outputs@.len() - 1) * (crate::parallel::chunk_len(
            left@.len(),
            thread_count as nat,
        ) as int) < left@.len() <= (outputs@.len() as int) * (crate::parallel::chunk_len(
            left@.len(),
            thread_count as nat,
        ) as int),
        // Worker `w`'s list joins exactly its own private chunk against the
        // whole public relation.
        forall|ww: int|
            0 <= ww < outputs@.len() ==> (#[trigger] outputs@[ww])@.to_multiset() == join_seq(
                crate::parallel::chunk_of(
                    left@,
                    crate::parallel::chunk_len(left@.len(), thread_count as nat),
                    ww as nat,
                ),
                right@,
            ).to_multiset(),
        flatten_outputs(outputs@).to_multiset() == join_seq(left@, right@).to_multiset(),
{
    let ghost l0 = left@;
    let ghost r0 = right@;
    let mut right = right;

    // Sort the public data among thread_count workers.
    crate::parallel::sort_runs_parallel(&mut right, thread_count);
    let ghost pub_sorted = right@;

    let llen = left.len();
    let private_cs = crate::parallel::ceil_div(llen, thread_count);
    let public_cs = crate::parallel::ceil_div(right.len(), thread_count);

    let mut outputs: Vec<Vec<Joined>> = Vec::new();
    let mut start: usize = 0;
    let mut w: usize = 0;
    while start < llen
        invariant
            thread_count >= 1,
            llen == l0.len(),
            left@ == l0,
            right@ == pub_sorted,
            private_cs == crate::parallel::chunk_len(l0.len(), thread_count as nat),
            public_cs == crate::parallel::chunk_len(pub_sorted.len(), thread_count as nat),
            forall|c: nat|
                c < thread_count ==> key_sorted(
                    #[trigger] crate::parallel::chunk_of(pub_sorted, public_cs as nat, c),
                ),
            w <= thread_count,
            w == 0 ==> start == 0,
            w > 0 ==> (w - 1) * (private_cs as int) < llen,
            outputs@.len() == w,
            start == crate::parallel::chunk_start(l0.len(), private_cs as nat, w as nat),
            start <= llen,
            forall|ww: int|
                0 <= ww < w ==> (#[trigger] outputs@[ww])@.to_multiset() == join_seq(
                    crate::parallel::chunk_of(l0, private_cs as nat, ww as nat),
                    pub_sorted,
                ).to_multiset(),
            flatten_outputs(outputs@).to_multiset() == join_seq(
                l0.take(start as int),
                pub_sorted,
            ).to_multiset(),
        decreases llen - start,
    {
        proof {
            crate::parallel::lemma_chunk_len_pos(l0.len(), thread_count as nat);
            crate::parallel::lemma_chunks_cover(l0.len(), thread_count as nat);
            if w >= thread_count {
                crate::parallel::lemma_chunk_start_mono(
                    l0.len(),
                    private_cs as nat,
                    thread_count as nat,
                    w as nat,
                );
            }
            crate::parallel::lemma_chunk_start_step(l0.len(), private_cs as nat, w as nat);
        }
        let end = if private_cs < llen - start {
            start + private_cs
        } else {
            llen
        };
        proof {
            assert(end == crate::parallel::chunk_start(l0.len(), private_cs as nat, (w + 1) as nat));
        }

        // This worker's private chunk, copied out and sorted locally.
        let mut piece: Vec<Tuple> = Vec::new();
        let mut idx = start;
        while idx < end
            invariant
                left@ == l0,
                start <= idx <= end,
                end <= l0.len(),
                piece@ == l0.subrange(start as int, idx as int),
            decreases end - idx,
        {
            piece.push(left[idx]);
            proof {
                assert(l0.subrange(start as int, idx + 1) =~= l0.subrange(
                    start as int,
                    idx as int,
                ).push(l0[idx as int]));
            }
            idx += 1;
        }
        proof {
            assert(piece@ =~= crate::parallel::chunk_of(l0, private_cs as nat, w as nat));
        }
        let ghost chunk = piece@;
        crate::parallel::sort_tuples_by_key(&mut piece);

        // Merge the sorted chunk against every public run.
        let mut out: Vec<Joined> = Vec::new();
        let plen = right.len();
        let mut pstart: usize = 0;
        let mut c: usize = 0;
        proof {
            assert(pub_sorted.take(0) =~= Seq::<Tuple>::empty());
            lemma_join_seq_empty_right(piece@);
            assert(crate::parallel::chunk_start(pub_sorted.len(), public_cs as nat, 0) == 0) by {
                assert(0 * (public_cs as nat) == 0) by (nonlinear_arith);
            }
        }
        while pstart < plen
            invariant
                thread_count >= 1,
                right@ == pub_sorted,
                plen == pub_sorted.len(),
                public_cs == crate::parallel::chunk_len(pub_sorted.len(), thread_count as nat),
                forall|cc: nat|
                    cc < thread_count ==> key_sorted(
                        #[trigger] crate::parallel::chunk_of(pub_sorted, public_cs as nat, cc),
                    ),
                key_sorted(piece@),
                pstart == crate::parallel::chunk_start(pub_sorted.len(), public_cs as nat, c as nat),
                pstart <= plen,
                out@.to_multiset() == join_seq(piece@, pub_sorted.take(pstart as int)).to_multiset(),
            decreases plen - pstart,
        {
            proof {
                crate::parallel::lemma_chunk_len_pos(pub_sorted.len(), thread_count as nat);
                crate::parallel::lemma_chunks_cover(pub_sorted.len(), thread_count as nat);
                if c >= thread_count {
                    crate::parallel::lemma_chunk_start_mono(
                        pub_sorted.len(),
                        public_cs as nat,
                        thread_count as nat,
                        c as nat,
                    );
                }
                crate::parallel::lemma_chunk_start_step(pub_sorted.len(), public_cs as nat, c as nat);
            }
            let pend = if public_cs < plen - pstart {
                pstart + public_cs
            } else {
                plen
            };
            proof {
                assert(pend == crate::parallel::chunk_start(
                    pub_sorted.len(),
                    public_cs as nat,
                    (c + 1) as nat,
                ));
            }
            let ghost out_pre = out@;
            let public_chunk = vstd::slice::slice_subrange(right.as_slice(), pstart, pend);
            proof {
                assert(public_chunk@ =~= crate::parallel::chunk_of(
                    pub_sorted,
                    public_cs as nat,
                    c as nat,
                ));
            }
            merge_join_sorted(piece.as_slice(), public_chunk, &mut out);
            proof {
                assert(pub_sorted.take(pend as int) =~= pub_sorted.take(pstart as int)
                    + public_chunk@);
                lemma_join_seq_concat_right(piece@, pub_sorted.take(pstart as int), public_chunk@);
                lemma_multiset_commutative(out_pre, join_seq(piece@, public_chunk@));
                assert(out@ =~= out_pre + join_seq(piece@, public_chunk@));
            }
            pstart = pend;
            c += 1;
        }
        proof {
            assert(pub_sorted.take(pstart as int) =~= pub_sorted);
        }

        let ghost outputs_pre = outputs@;
        outputs.push(out);
        proof {
            // This worker's output joins its original chunk (the sort is a
            // permutation) and extends the joined prefix by one chunk.
            lemma_join_seq_multiset_permuted(piece@, pub_sorted, chunk, pub_sorted);
            assert(outputs@.drop_last() =~= outputs_pre);
            assert(outputs@[w as int]@ == out@);
            assert(flatten_outputs(outputs@) == flatten_outputs(outputs_pre) + out@);
            lemma_multiset_commutative(flatten_outputs(outputs_pre), out@);
            assert(l0.take(end as int) =~= l0.take(start as int) + chunk);
            lemma_join_seq_concat_left(l0.take(start as int), chunk, pub_sorted);
            lemma_multiset_commutative(
                join_seq(l0.take(start as int), pub_sorted),
                join_seq(chunk, pub_sorted),
            );
        }
        start = end;
        w += 1;
    }

    proof {
        assert(l0.take(start as int) =~= l0);
        lemma_join_seq_multiset_permuted(l0, pub_sorted, l0, r0);
        if l0.len() > 0 {
            assert(crate::parallel::chunk_start(l0.len(), private_cs as nat, 0) == 0) by {
                assert(0 * (private_cs as nat) == 0) by (nonlinear_arith);
            }
            assert(w >= 1);
        }
        // Each worker's list is stated against the original (unsorted)
        // public relation, a permutation of the sorted runs it merged.
        assert forall|ww: int| 0 <= ww < outputs@.len() implies (#[trigger] outputs@[ww])@
            .to_multiset() == join_seq(
            crate::parallel::chunk_of(l0, private_cs as nat, ww as nat),
            r0,
        ).to_multiset() by {
            lemma_join_seq_multiset_permuted(
                crate::parallel::chunk_of(l0, private_cs as nat, ww as nat),
                pub_sorted,
                crate::parallel::chunk_of(l0, private_cs as nat, ww as nat),
                r0,
            );
        }
    }
    outputs
}

/// The radix-partitioned multi-worker sort-merge join: the public relation is
/// sorted in chunked runs; the private relation is counted per chunk and bin,
/// turned into prefix sums, and scattered into one radix partition per
/// worker; each worker then sorts its partition locally and merge-joins it
/// against every public run. The radix pre-partitioning shrinks each
/// worker's private working set compared with the basic strategy.
pub fn partitioned_mpsm(left: Vec<Tuple>, right: Vec<Tuple>, thread_count: usize) -> (outputs: Vec<
    Vec<Joined>,
>)
    requires
        thread_count >= 2,
        crate::parallel::is_power_of_two(thread_count as nat),
    ensures
        outputs@.len() == thread_count,
        // Worker `b`'s list joins exactly radix partition `b` of the private
        // relation — the tuples whose top radix bits select bin `b` — against
        // the whole public relation.
        forall|bb: int|
            0 <= bb < thread_count ==> (#[trigger] outputs@[bb])@.to_multiset() == join_seq(
                crate::parallel::bin_filter(
                    left@,
                    crate::parallel::log2(thread_count as nat) as u64,
                    bb as u64,
                ),
                right@,
            ).to_multiset(),
        flatten_outputs(outputs@).to_multiset() == join_seq(left@, right@).to_multiset(),
{
    let ghost l0 = left@;
    let ghost r0 = right@;
    let mut right = right;

    let public_cs = crate::parallel::ceil_div(right.len(), thread_count);

    // Phase 1: sort the public data among thread_count workers.
    crate::parallel::sort_runs_parallel(&mut right, thread_count);
    let ghost pub_sorted = right@;

    // Phase 2: per-chunk histograms and prefix sums over the private data,
    // then scatter it into thread_count radix partitions.
    let histograms = crate::parallel::chunk_histograms(&left, thread_count);
    let left_len = left.len();
    let ghost cs = crate::parallel::chunk_len(l0.len(), thread_count as nat);
    let ghost bits = crate::parallel::log2(thread_count as nat) as u64;
    proof {
        crate::parallel::lemma_pow2_log2(thread_count as nat);
        crate::parallel::lemma_log2_bits_range(thread_count as nat);
        assert forall|j: int| 0 <= j < histograms@[0]@.len() implies crate::histograms::col_sum(
            histograms@,
            histograms@.len() as int,
            j,
        ) <= u64::MAX by {
            crate::parallel::lemma_col_sum_is_bin_offset(
                histograms@,
                l0,
                cs,
                bits,
                j as u64,
                thread_count as nat,
            );
            crate::parallel::lemma_bin_offset_le_start(l0, cs, bits, j as u64, thread_count as nat);
            assert(crate::parallel::chunk_start(l0.len(), cs, thread_count as nat) <= l0.len());
            assert(l0.len() == left_len);
            assert(crate::histograms::col_sum(histograms@, histograms@.len() as int, j)
                == crate::parallel::bin_offset(l0, cs, bits, j as u64, thread_count as nat));
        }
    }
    let ps = crate::histograms::prefix_sums(&histograms);
    proof {
        assert forall|i: int, b: int|
            0 <= i <= thread_count && 0 <= b < thread_count implies (#[trigger] ps@[i]@[b]) as nat
            == crate::parallel::bin_offset(l0, cs, bits, b as u64, i as nat) by {
            crate::parallel::lemma_col_sum_is_bin_offset(
                histograms@,
                l0,
                cs,
                bits,
                b as u64,
                i as nat,
            );
        }
    }
    let partitions = crate::parallel::scatter(&left, thread_count, &ps);

    // Phases 3 and 4: each worker sorts its partition and merges it against
    // every public run.
    let mut outputs: Vec<Vec<Joined>> = Vec::new();
    let ghost mut seen: Seq<Tuple> = Seq::empty();
    let mut b: usize = 0;
    proof {
        broadcast use group_to_multiset_ensures;
        broadcast use vstd::multiset::group_multiset_axioms;
        broadcast use vstd::multiset::lemma_multiset_empty_len;

        crate::parallel::lemma_scattered_union_zero(l0, cs, bits, thread_count as nat);
        assert(flatten_outputs(outputs@).to_multiset() =~= join_seq(seen, pub_sorted).to_multiset());
        assert(seen.to_multiset().len() == 0);
        assert(seen.to_multiset() =~= Multiset::<Tuple>::empty());
    }
    while b < thread_count
        invariant
            thread_count >= 2,
            right@ == pub_sorted,
            public_cs == crate::parallel::chunk_len(pub_sorted.len(), thread_count as nat),
            forall|c: nat|
                c < thread_count ==> key_sorted(
                    #[trigger] crate::parallel::chunk_of(pub_sorted, public_cs as nat, c),
                ),
            partitions@.len() == thread_count,
            cs == crate::parallel::chunk_len(l0.len(), thread_count as nat),
            bits == crate::parallel::log2(thread_count as nat) as u64,
            forall|bb: int|
                0 <= bb < thread_count ==> (#[trigger] partitions@[bb])@
                    == crate::parallel::scattered(l0, cs, bits, bb as u64, thread_count as nat),
            0 <= b <= thread_count,
            outputs@.len() == b,
            forall|bb: int|
                0 <= bb < b ==> (#[trigger] outputs@[bb])@.to_multiset() == join_seq(
                    crate::parallel::scattered(l0, cs, bits, bb as u64, thread_count as nat),
                    pub_sorted,
                ).to_multiset(),
            seen.to_multiset() == crate::parallel::scattered_union(
                l0,
                cs,
                bits,
                b as nat,
                thread_count as nat,
            ),
            flatten_outputs(outputs@).to_multiset() == join_seq(seen, pub_sorted).to_multiset(),
        decreases thread_count - b,
    {
        // This worker's private partition, copied out and sorted locally.
        let p_len = partitions[b].len();
        let mut piece: Vec<Tuple> = Vec::new();
        let mut idx: usize = 0;
        while idx < p_len
            invariant
                partitions@.len() == thread_count,
                0 <= b < thread_count,
                p_len == partitions@[b as int]@.len(),
                0 <= idx <= p_len,
                piece@ == partitions@[b as int]@.take(idx as int),
            decreases p_len - idx,
        {
            piece.push(partitions[b][idx]);
            proof {
                assert(partitions@[b as int]@.take(idx + 1) =~= partitions@[b as int]@.take(
                    idx as int,
                ).push(partitions@[b as int]@[idx as int]));
            }
            idx += 1;
        }
        proof {
            assert(piece@ =~= partitions@[b as int]@);
        }
        let ghost partition = piece@;
        crate::parallel::sort_tuples_by_key(&mut piece);

        // Merge the sorted partition against every public run.
        let mut out: Vec<Joined> = Vec::new();
        let plen = right.len();
        let mut pstart: usize = 0;
        let mut c: usize = 0;
        proof {
            assert(pub_sorted.take(0) =~= Seq::<Tuple>::empty());
            lemma_join_seq_empty_right(piece@);
            assert(crate::parallel::chunk_start(pub_sorted.len(), public_cs as nat, 0) == 0) by {
                assert(0 * (public_cs as nat) == 0) by (nonlinear_arith);
            }
        }
        while pstart < plen
            invariant
                thread_count >= 2,
                right@ == pub_sorted,
                plen == pub_sorted.len(),
                public_cs == crate::parallel::chunk_len(pub_sorted.len(), thread_count as nat),
                forall|cc: nat|
                    cc < thread_count ==> key_sorted(
                        #[trigger] crate::parallel::chunk_of(pub_sorted, public_cs as nat, cc),
                    ),
                key_sorted(piece@),
                pstart == crate::parallel::chunk_start(pub_sorted.len(), public_cs as nat, c as nat),
                pstart <= plen,
                out@.to_multiset() == join_seq(piece@, pub_sorted.take(pstart as int)).to_multiset(),
            decreases plen - pstart,
        {
            proof {
                crate::parallel::lemma_chunk_len_pos(pub_sorted.len(), thread_count as nat);
                crate::parallel::lemma_chunks_cover(pub_sorted.len(), thread_count as nat);
                if c >= thread_count {
                    crate::parallel::lemma_chunk_start_mono(
                        pub_sorted.len(),
                        public_cs as nat,
                        thread_count as nat,
                        c as nat,
                    );
                }
                crate::parallel::lemma_chunk_start_step(pub_sorted.len(), public_cs as nat, c as nat);
            }
            let pend = if public_cs < plen - pstart {
                pstart + public_cs
            } else {
                plen
            };
            proof {
                assert(pend == crate::parallel::chunk_start(
                    pub_sorted.len(),
                    public_cs as nat,
                    (c + 1) as nat,
                ));
            }
            let ghost out_pre = out@;
            let public_chunk = vstd::slice::slice_subrange(right.as_slice(), pstart, pend);
            proof {
                assert(public_chunk@ =~= crate::parallel::chunk_of(
                    pub_sorted,
                    public_cs as nat,
                    c as nat,
                ));
            }
            merge_join_sorted(piece.as_slice(), public_chunk, &mut out);
            proof {
                assert(pub_sorted.take(pend as int) =~= pub_sorted.take(pstart as int)
                    + public_chunk@);
                lemma_join_seq_concat_right(piece@, pub_sorted.take(pstart as int), public_chunk@);
                lemma_multiset_commutative(out_pre, join_seq(piece@, public_chunk@));
                assert(out@ =~= out_pre + join_seq(piece@, public_chunk@));
            }
            pstart = pend;
            c += 1;
        }
        proof {
            assert(pub_sorted.take(pstart as int) =~= pub_sorted);
        }

        let ghost outputs_pre = outputs@;
        let ghost seen_pre = seen;
        outputs.push(out);
        proof {
            seen = seen + partition;
            lemma_join_seq_multiset_permuted(piece@, pub_sorted, partition, pub_sorted);
            assert(outputs@[b as int]@ == out@);
            assert(outputs@.drop_last() =~= outputs_pre);
            assert(flatten_outputs(outputs@) == flatten_outputs(outputs_pre) + out@);
            lemma_multiset_commutative(flatten_outputs(outputs_pre), out@);
            lemma_multiset_commutative(seen_pre, partition);
            lemma_join_seq_concat_left(seen_pre, partition, pub_sorted);
            lemma_multiset_commutative(
                join_seq(seen_pre, pub_sorted),
                join_seq(partition, pub_sorted),
            );
            lemma_join_seq_multiset_permuted(seen, pub_sorted, seen, pub_sorted);
        }
        b += 1;
    }

    proof {
        // Across all partitions the scatter reproduced the private relation's
        // multiset, so the combined output joins the original relations.
        crate::parallel::lemma_scatter_fidelity(l0, cs, bits, thread_count as nat, thread_count as nat);
        crate::parallel::lemma_chunks_cover(l0.len(), thread_count as nat);
        crate::parallel::lemma_chunks_prefix(l0, cs, thread_count as nat);
        assert(l0.take(l0.len() as int) =~= l0);
        lemma_join_seq_multiset_permuted(seen, pub_sorted, l0, r0);
        // Each partition is the private relation's bin subsequence, and the
        // sorted public runs permute the original public relation.
        assert forall|bb: int| 0 <= bb < thread_count implies (#[trigger] outputs@[bb])@
            .to_multiset() == join_seq(
            crate::parallel::bin_filter(l0, bits, bb as u64),
            r0,
        ).to_multiset() by {
            crate::parallel::lemma_scattered_whole(l0, cs, bits, bb as u64, thread_count as nat);
            assert(crate::parallel::scattered(l0, cs, bits, bb as u64, thread_count as nat)
                == crate::parallel::bin_filter(l0, bits, bb as u64));
            lemma_join_seq_multiset_permuted(
                crate::parallel::bin_filter(l0, bits, bb as u64),
                pub_sorted,
                crate::parallel::bin_filter(l0, bits, bb as u64),
                r0,
            );
        }
    }
    outputs
}

} // verus!
