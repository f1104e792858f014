//! Table assembly and comparison helpers around the join engine: zipping key
//! and payload columns into a table, and order-insensitive table equality.

use vstd::prelude::*;
use vstd::relations::sorted_by;
use vstd::relations::total_ordering;
use vstd::seq_lib::lemma_sorted_unique;
use vstd::seq_lib::group_to_multiset_ensures;
use crate::tuples::Tuple;

verus! {

/// Tuples ordered by key, ties broken by payload: a total order, so equal
/// multisets have exactly one sorted arrangement.
pub open spec fn lex_leq() -> spec_fn(Tuple, Tuple) -> bool {
    |a: Tuple, b: Tuple| a.key < b.key || (a.key == b.key && a.payload <= b.payload)
}

pub proof fn lemma_lex_leq_total()
    ensures
        total_ordering(lex_leq()),
{
    assert(vstd::relations::reflexive(lex_leq()));
    assert(vstd::relations::antisymmetric(lex_leq()));
    assert(vstd::relations::transitive(lex_leq()));
    assert(vstd::relations::strongly_connected(lex_leq()));
}

/// Relies on std's `slice::sort_by_key` with the (key, payload) pair as the
/// sort key: afterwards the table is sorted by key with payload ties in
/// order, and it is a permutation of its old value.
#[verifier::external_body]
fn sort_tuples_lex(table: &mut Vec<Tuple>)
    ensures
        final(table)@.len() == old(table)@.len(),
        sorted_by(final(table)@, lex_leq()),
        final(table)@.to_multiset() == old(table)@.to_multiset(),
{
    table.sort_by_key(|t| (t.key, t.payload))
}

/// Pairs each key with the payload at the same position.
pub fn zip_table(key_set: &[u64], payload_set: &[u64]) -> (table: Vec<Tuple>)
    requires
        key_set@.len() == payload_set@.len(),
    ensures
        table@.len() == key_set@.len(),
        forall|i: int|
            0 <= i < table@.len() ==> #[trigger] table@[i] == (Tuple {
                key: key_set@[i],
                payload: payload_set@[i],
            }),
{
    let mut table: Vec<Tuple> = Vec::new();
    let mut i: usize = 0;
    while i < key_set.len()
        invariant
            key_set@.len() == payload_set@.len(),
            0 <= i <= key_set@.len(),
            table@.len() == i,
            forall|n: int|
                0 <= n < i ==> #[trigger] table@[n] == (Tuple {
                    key: key_set@[n],
                    payload: payload_set@[n],
                }),
        decreases key_set@.len() - i,
    {
        table.push(Tuple { key: key_set[i], payload: payload_set[i] });
        i += 1;
    }
    table
}

/// Compares two tables as multisets, ignoring order: true exactly when every
/// tuple occurs equally often in both. Each side is copied, canonicalized by
/// a lexicographic sort, and compared element by element.
pub fn table_eq(left: &[Tuple], right: &[Tuple]) -> (r: bool)
    ensures
        r == (left@.to_multiset() == right@.to_multiset()),
{
    broadcast use group_to_multiset_ensures;

    let mut ls: Vec<Tuple> = Vec::new();
    let mut i: usize = 0;
    while i < left.len()
        invariant
            0 <= i <= left@.len(),
            ls@ == left@.take(i as int),
        decreases left@.len() - i,
    {
        ls.push(left[i]);
        proof {
            assert(left@.take(i + 1) =~= left@.take(i as int).push(left@[i as int]));
        }
        i += 1;
    }
    let mut rs: Vec<Tuple> = Vec::new();
    let mut j: usize = 0;
    while j < right.len()
        invariant
            0 <= j <= right@.len(),
            rs@ == right@.take(j as int),
        decreases right@.len() - j,
    {
        rs.push(right[j]);
        proof {
            assert(right@.take(j + 1) =~= right@.take(j as int).push(right@[j as int]));
        }
        j += 1;
    }
    proof {
        assert(ls@ =~= left@);
        assert(rs@ =~= right@);
    }

    sort_tuples_lex(&mut ls);
    sort_tuples_lex(&mut rs);

    if ls.len() != rs.len() {
        proof {
            assert(left@.to_multiset().len() == left@.len());
            assert(right@.to_multiset().len() == right@.len());
        }
        return false;
    }

    let mut n: usize = 0;
    while n < ls.len()
        invariant
            ls@.len() == rs@.len(),
            sorted_by(ls@, lex_leq()),
            sorted_by(rs@, lex_leq()),
            ls@.to_multiset() == left@.to_multiset(),
            rs@.to_multiset() == right@.to_multiset(),
            0 <= n <= ls@.len(),
            forall|m: int| 0 <= m < n ==> ls@[m] == rs@[m],
        decreases ls@.len() - n,
    {
        let a = ls[n];
        let b = rs[n];
        if a.key != b.key || a.payload != b.payload {
            proof {
                // Equal multisets sort to the same sequence, so a mismatch
                // means the multisets differ.
                if left@.to_multiset() == right@.to_multiset() {
                    lemma_lex_leq_total();
                    lemma_sorted_unique(ls@, rs@, lex_leq());
                }
            }
            return false;
        }
        n += 1;
    }
    proof {
        assert(ls@ =~= rs@);
    }
    true
}

} // verus!
