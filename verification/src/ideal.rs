//! Hardware-ideal baseline kernels: sequential and strided memory scans and
//! joins over dense permutations, used to bound what real operators can hope
//! to reach.

use vstd::prelude::*;

verus! {

/// Exclusive-or of all elements of `s`.
pub open spec fn xor_fold(s: Seq<usize>) -> usize
    decreases s.len(),
{
    if s.len() == 0 {
        0
    } else {
        xor_fold(s.drop_last()) ^ s.last()
    }
}

/// `s` holds every value below `s.len()` exactly once.
pub open spec fn is_dense_permutation(s: Seq<usize>) -> bool {
    (forall|i: int| 0 <= i < s.len() ==> #[trigger] s[i] < s.len()) && (forall|v: int|
        0 <= v < s.len() ==> #[trigger] s.contains(v as usize))
}

/// Folds the whole input with exclusive-or, touching memory in order.
pub fn mem_scan(input: &Vec<usize>) -> (r: usize)
    ensures
        r == xor_fold(input@),
{
    let mut accumulator: usize = 0;
    let mut i: usize = 0;
    while i < input.len()
        invariant
            0 <= i <= input@.len(),
            accumulator == xor_fold(input@.take(i as int)),
        decreases input@.len() - i,
    {
        proof {
            assert(input@.take(i + 1).drop_last() =~= input@.take(i as int));
        }
        accumulator = accumulator ^ input[i];
        i += 1;
    }
    proof {
        assert(input@.take(input@.len() as int) =~= input@);
    }
    accumulator
}

/// Folds the two halves of the input in lockstep; with an odd length the
/// final element belongs to neither half and is skipped.
pub fn mem_strided_scan(input: &Vec<usize>) -> (r: usize)
    ensures
        r == xor_fold(input@.subrange(0, input@.len() as int / 2)) ^ xor_fold(
            input@.subrange(input@.len() as int / 2, 2 * (input@.len() as int / 2)),
        ),
{
    let mut accumulator1: usize = 0;
    let mut accumulator2: usize = 0;
    let half = input.len() / 2;
    let mut i: usize = 0;
    while i < half
        invariant
            input@.len() <= usize::MAX,
            half == input@.len() / 2,
            0 <= i <= half,
            accumulator1 == xor_fold(input@.subrange(0, i as int)),
            accumulator2 == xor_fold(input@.subrange(half as int, half + i)),
        decreases half - i,
    {
        proof {
            assert(input@.subrange(0, i + 1).drop_last() =~= input@.subrange(0, i as int));
            assert(input@.subrange(half as int, half + i + 1).drop_last() =~= input@.subrange(
                half as int,
                half + i,
            ));
        }
        accumulator1 = accumulator1 ^ input[i];
        accumulator2 = accumulator2 ^ input[half + i];
        i += 1;
    }
    accumulator1 ^ accumulator2
}

/// Folds four interleaved quarters of the input; the tail that does not fill
/// a full quarter is skipped, matching the two-way strided scan.
pub fn mem_strided_4_scan(input: &Vec<usize>) -> (r: usize)
    ensures
        ({
            let q = input@.len() as int / 4;
            let h = input@.len() as int / 2;
            r == xor_fold(input@.subrange(0, q)) ^ xor_fold(input@.subrange(q, 2 * q)) ^ xor_fold(
                input@.subrange(h, h + q),
            ) ^ xor_fold(input@.subrange(h + q, h + 2 * q))
        }),
{
    let mut accumulator1: usize = 0;
    let mut accumulator2: usize = 0;
    let mut accumulator3: usize = 0;
    let mut accumulator4: usize = 0;
    let quarter = input.len() / 4;
    let half = input.len() / 2;
    let mut i: usize = 0;
    while i < quarter
        invariant
            input@.len() <= usize::MAX,
            quarter == input@.len() / 4,
            half == input@.len() / 2,
            0 <= i <= quarter,
            accumulator1 == xor_fold(input@.subrange(0, i as int)),
            accumulator2 == xor_fold(input@.subrange(quarter as int, quarter + i)),
            accumulator3 == xor_fold(input@.subrange(half as int, half + i)),
            accumulator4 == xor_fold(input@.subrange(half + quarter, half + quarter + i)),
        decreases quarter - i,
    {
        proof {
            assert(half as int + 2 * (quarter as int) <= input@.len());
            assert(input@.subrange(0, i + 1).drop_last() =~= input@.subrange(0, i as int));
            assert(input@.subrange(quarter as int, quarter + i + 1).drop_last() =~= input@.subrange(
                quarter as int,
                quarter + i,
            ));
            assert(input@.subrange(half as int, half + i + 1).drop_last() =~= input@.subrange(
                half as int,
                half + i,
            ));
            assert(input@.subrange(half + quarter, half + quarter + i + 1).drop_last()
                =~= input@.subrange(half + quarter, half + quarter + i));
        }
        accumulator1 = accumulator1 ^ input[i];
        accumulator2 = accumulator2 ^ input[quarter + i];
        accumulator3 = accumulator3 ^ input[half + i];
        accumulator4 = accumulator4 ^ input[half + quarter + i];
        i += 1;
    }
    accumulator1 ^ accumulator2 ^ accumulator3 ^ accumulator4
}

/// Places every value of a dense permutation at its own index in one pass,
/// the cheapest conceivable sort for such inputs.
pub fn sort_ideal(input: &Vec<usize>) -> (output: Vec<usize>)
    requires
        forall|i: int| 0 <= i < input@.len() ==> input@[i] < input@.len(),
    ensures
        output@.len() == input@.len(),
        forall|v: int|
            0 <= v < output@.len() ==> #[trigger] output@[v] == (if input@.contains(v as usize) {
                v
            } else {
                0
            }),
{
    let mut output: Vec<usize> = vec![0usize; input.len()];

    let mut i: usize = 0;
    while i < input.len()
        invariant
            forall|n: int| 0 <= n < input@.len() ==> input@[n] < input@.len(),
            0 <= i <= input@.len(),
            output@.len() == input@.len(),
            forall|v: int|
                0 <= v < output@.len() ==> #[trigger] output@[v] == (if input@.take(
                    i as int,
                ).contains(v as usize) {
                    v
                } else {
                    0
                }),
        decreases input@.len() - i,
    {
        let v = input[i];
        let ghost out0 = output@;
        output[v] = v;
        proof {
            assert(output@ =~= out0.update(v as int, v));
            assert(input@.take(i + 1)[i as int] == v);
            assert(input@.take(i + 1).contains(v));
            assert forall|w: int| 0 <= w < output@.len() implies #[trigger] output@[w] == (
            if input@.take(i + 1).contains(w as usize) {
                w
            } else {
                0
            }) by {
                if input@.take(i + 1).contains(w as usize) {
                    let n = choose|n: int|
                        0 <= n < i + 1 && #[trigger] input@.take(i + 1)[n] == w as usize;
                    if n < i {
                        assert(input@.take(i as int)[n] == w as usize);
                        assert(input@.take(i as int).contains(w as usize));
                    }
                } else {
                    assert(!input@.take(i as int).contains(w as usize)) by {
                        if input@.take(i as int).contains(w as usize) {
                            let n = choose|n: int|
                                0 <= n < i && #[trigger] input@.take(i as int)[n] == w as usize;
                            assert(input@.take(i + 1)[n] == w as usize);
                        }
                    }
                }
            }
        }
        i += 1;
    }
    proof {
        assert(input@.take(input@.len() as int) =~= input@);
    }
    output
}

/// Relies on std's `slice::sort`: afterwards the values are in ascending
/// order and the vector is a permutation of its old value.
#[verifier::external_body]
fn sort_values(input: &mut Vec<usize>)
    ensures
        final(input)@.len() == old(input)@.len(),
        forall|i: int, j: int|
            0 <= i <= j < final(input)@.len() ==> final(input)@[i] <= final(input)@[j],
        final(input)@.to_multiset() == old(input)@.to_multiset(),
{
    input.sort()
}

/// The library-level baseline the ideal sort is measured against: an
/// ordinary comparison sort of arbitrary values.
pub fn rust_sort(input: Vec<usize>) -> (output: Vec<usize>)
    ensures
        output@.len() == input@.len(),
        forall|i: int, j: int| 0 <= i <= j < output@.len() ==> output@[i] <= output@[j],
        output@.to_multiset() == input@.to_multiset(),
{
    let mut input = input;
    sort_values(&mut input);
    input
}

/// Joins two dense permutations positionally after ideally sorting both; on
/// such inputs every output entry is zero.
pub fn sort_merge_join_ideal(left: &Vec<usize>, right: &Vec<usize>) -> (output: Vec<usize>)
    requires
        is_dense_permutation(left@),
        is_dense_permutation(right@),
    ensures
        output@.len() == (if left@.len() <= right@.len() {
            left@.len()
        } else {
            right@.len()
        }),
        forall|n: int| 0 <= n < output@.len() ==> #[trigger] output@[n] == 0,
{
    let left_sorted = sort_ideal(left);
    let right_sorted = sort_ideal(right);

    let mut output: Vec<usize> = Vec::new();

    let mut li: usize = 0;
    let mut ri: usize = 0;
    while li < left_sorted.len() && ri < right_sorted.len()
        invariant
            left_sorted@.len() == left@.len(),
            right_sorted@.len() == right@.len(),
            forall|v: int| 0 <= v < left_sorted@.len() ==> #[trigger] left_sorted@[v] == v,
            forall|v: int| 0 <= v < right_sorted@.len() ==> #[trigger] right_sorted@[v] == v,
            li == ri,
            0 <= li <= left_sorted@.len(),
            0 <= ri <= right_sorted@.len(),
            output@.len() == li,
            forall|n: int| 0 <= n < output@.len() ==> #[trigger] output@[n] == 0,
        decreases left_sorted@.len() - li,
    {
        output.push(left_sorted[li] - right_sorted[ri]);
        li += 1;
        ri += 1;
    }

    output
}

/// Probes an ideally sorted permutation with each left value; on dense
/// permutations every probe hits its own value, so every entry is zero.
pub fn hash_join_ideal(left: &Vec<usize>, right: &Vec<usize>) -> (output: Vec<usize>)
    requires
        is_dense_permutation(right@),
        forall|i: int| 0 <= i < left@.len() ==> left@[i] < right@.len(),
    ensures
        output@.len() == left@.len(),
        forall|n: int| 0 <= n < output@.len() ==> #[trigger] output@[n] == 0,
{
    let right_sorted = sort_ideal(right);

    let mut output: Vec<usize> = Vec::new();
    let mut i: usize = 0;
    while i < left.len()
        invariant
            right_sorted@.len() == right@.len(),
            forall|v: int| 0 <= v < right_sorted@.len() ==> #[trigger] right_sorted@[v] == v,
            forall|n: int| 0 <= n < left@.len() ==> left@[n] < right@.len(),
            0 <= i <= left@.len(),
            output@.len() == i,
            forall|n: int| 0 <= n < output@.len() ==> #[trigger] output@[n] == 0,
        decreases left@.len() - i,
    {
        let v = left[i];
        output.push(right_sorted[v] - v);
        i += 1;
    }

    output
}

} // verus!
