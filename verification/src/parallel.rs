//! The phase primitives of the partitioned join: chunked sorting of runs,
//! per-chunk radix histograms, and the prefix-sum-driven scatter.
//!
//! Each phase works on `chunk_count` contiguous chunks of its table, chunk
//! `i` covering `[i * chunk_size, (i + 1) * chunk_size)` clamped to the
//! table's length, with `chunk_size = ceil(len / chunk_count)`.

use vstd::prelude::*;
use vstd::arithmetic::div_mod::lemma_fundamental_div_mod;
use vstd::arithmetic::power2::pow2;
use vstd::arithmetic::power2::lemma_pow2_strictly_increases;
use vstd::seq_lib::lemma_multiset_commutative;
use vstd::multiset::Multiset;
use crate::join::key_filter;
use crate::join::key_sorted;
use crate::tuples::Tuple;

verus! {

// --- chunk geometry ----------------------------------------------------------

/// Size of one chunk: the table length divided by the chunk count, rounded
/// up so that `chunk_count` chunks always cover the whole table.
pub open spec fn chunk_len(len: nat, chunk_count: nat) -> nat {
    len / chunk_count + if len % chunk_count == 0 {
        0nat
    } else {
        1nat
    }
}

/// Where chunk `i` begins: `i` chunk sizes in, clamped to the table length.
pub open spec fn chunk_start(len: nat, cs: nat, i: nat) -> nat {
    if i * cs <= len {
        i * cs
    } else {
        len
    }
}

/// Chunk `i` of the table `s`, possibly empty once the table is exhausted.
pub open spec fn chunk_of(s: Seq<Tuple>, cs: nat, i: nat) -> Seq<Tuple> {
    s.subrange(
        chunk_start(s.len(), cs, i) as int,
        chunk_start(s.len(), cs, i + 1) as int,
    )
}

/// The first `n` chunks, in order.
pub open spec fn chunks_prefix(s: Seq<Tuple>, cs: nat, n: nat) -> Seq<Tuple>
    decreases n,
{
    if n == 0 {
        Seq::empty()
    } else {
        chunks_prefix(s, cs, (n - 1) as nat) + chunk_of(s, cs, (n - 1) as nat)
    }
}

/// Chunk starts grow with `i` and consecutive starts differ by at most `cs`.
pub proof fn lemma_chunk_start_step(len: nat, cs: nat, i: nat)
    ensures
        (i + 1) * cs == i * cs + cs,
        chunk_start(len, cs, i) <= chunk_start(len, cs, i + 1),
        chunk_start(len, cs, i + 1) <= chunk_start(len, cs, i) + cs,
{
    assert((i + 1) * cs == i * cs + cs) by (nonlinear_arith);
}

/// The first `n` chunks laid end to end are exactly the table's prefix up to
/// chunk `n`'s start.
pub proof fn lemma_chunks_prefix(s: Seq<Tuple>, cs: nat, n: nat)
    ensures
        chunks_prefix(s, cs, n) == s.take(chunk_start(s.len(), cs, n) as int),
    decreases n,
{
    if n == 0 {
        assert(chunks_prefix(s, cs, 0) =~= s.take(0));
    } else {
        lemma_chunks_prefix(s, cs, (n - 1) as nat);
        lemma_chunk_start_step(s.len(), cs, (n - 1) as nat);
        assert(s.take(chunk_start(s.len(), cs, (n - 1) as nat) as int) + chunk_of(
            s,
            cs,
            (n - 1) as nat,
        ) =~= s.take(chunk_start(s.len(), cs, n) as int));
    }
}

/// With the rounded-up chunk size, `chunk_count` chunks reach the table end.
pub proof fn lemma_chunks_cover(len: nat, chunk_count: nat)
    requires
        chunk_count >= 1,
    ensures
        chunk_start(len, chunk_len(len, chunk_count), chunk_count) == len,
{
    let cs = chunk_len(len, chunk_count);
    lemma_fundamental_div_mod(len as int, chunk_count as int);
    assert(chunk_count * cs >= len) by (nonlinear_arith)
        requires
            chunk_count >= 1,
            cs == len / chunk_count + if len % chunk_count == 0 {
                0nat
            } else {
                1nat
            },
            len == chunk_count * (len / chunk_count) + len % chunk_count,
            0 <= len % chunk_count < chunk_count,
    ;
    assert(chunk_count * cs == cs * chunk_count) by (nonlinear_arith);
    if chunk_count * cs <= len {
        assert(chunk_start(len, cs, chunk_count) == len);
    } else {
        assert(chunk_start(len, cs, chunk_count) == len);
    }
}

/// Two tables of equal length whose corresponding chunks hold equal
/// multisets hold equal multisets overall.
pub proof fn lemma_chunks_multiset(a: Seq<Tuple>, b: Seq<Tuple>, cs: nat, n: nat)
    requires
        a.len() == b.len(),
        forall|i: nat|
            i < n ==> chunk_of(a, cs, i).to_multiset() == chunk_of(b, cs, i).to_multiset(),
    ensures
        chunks_prefix(a, cs, n).to_multiset() == chunks_prefix(b, cs, n).to_multiset(),
    decreases n,
{
    if n > 0 {
        lemma_chunks_multiset(a, b, cs, (n - 1) as nat);
        assert(chunk_of(a, cs, (n - 1) as nat).to_multiset() == chunk_of(
            b,
            cs,
            (n - 1) as nat,
        ).to_multiset());
        lemma_multiset_commutative(chunks_prefix(a, cs, (n - 1) as nat), chunk_of(a, cs, (n - 1) as nat));
        lemma_multiset_commutative(chunks_prefix(b, cs, (n - 1) as nat), chunk_of(b, cs, (n - 1) as nat));
    }
}

/// Computes the rounded-up chunk size.
pub fn ceil_div(len: usize, d: usize) -> (r: usize)
    requires
        d >= 1,
    ensures
        r == chunk_len(len as nat, d as nat),
{
    let q = len / d;
    if len % d == 0 {
        q
    } else {
        proof {
            lemma_fundamental_div_mod(len as int, d as int);
            assert(q < len) by (nonlinear_arith)
                requires
                    d >= 1,
                    len % d != 0,
                    len == d * q + len % d,
                    0 <= len % d < d,
            ;
        }
        q + 1
    }
}

/// A non-empty table has non-empty chunks.
pub proof fn lemma_chunk_len_pos(len: nat, chunk_count: nat)
    requires
        chunk_count >= 1,
        len >= 1,
    ensures
        chunk_len(len, chunk_count) >= 1,
{
    lemma_fundamental_div_mod(len as int, chunk_count as int);
    if len % chunk_count == 0 {
        assert(len / chunk_count >= 1) by (nonlinear_arith)
            requires
                chunk_count >= 1,
                len >= 1,
                len == chunk_count * (len / chunk_count),
                len / chunk_count >= 0,
        ;
    }
}

// --- trusted sorting primitive ------------------------------------------------

/// Relies on std's `slice::sort_by_key` with the tuple's key as the sort key:
/// afterwards the table is key-sorted and is a permutation of its old value,
/// and, because std documents the sort as stable, tuples of equal key keep
/// their relative order.
#[verifier::external_body]
pub(crate) fn sort_tuples_by_key(table: &mut Vec<Tuple>)
    ensures
        final(table)@.len() == old(table)@.len(),
        key_sorted(final(table)@),
        final(table)@.to_multiset() == old(table)@.to_multiset(),
        forall|k: u64| #[trigger] key_filter(final(table)@, k) == key_filter(old(table)@, k),
{
    table.sort_by_key(|t| t.key)
}

// --- parallel sort-runs --------------------------------------------------------

/// Sorts each of the table's `chunk_count` chunks by key in place. Each chunk
/// is owned by one worker of the sorting phase; the chunks are disjoint, so
/// the workers never touch the same tuple.
pub fn sort_runs_parallel(table: &mut Vec<Tuple>, chunk_count: usize)
    requires
        chunk_count >= 1,
    ensures
        final(table)@.len() == old(table)@.len(),
        final(table)@.to_multiset() == old(table)@.to_multiset(),
        ({
            let cs = chunk_len(old(table)@.len(), chunk_count as nat);
            &&& forall|i: nat|
                i < chunk_count ==> key_sorted(#[trigger] chunk_of(final(table)@, cs, i))
            &&& forall|i: nat|
                i < chunk_count ==> (#[trigger] chunk_of(final(table)@, cs, i)).to_multiset()
                    == chunk_of(old(table)@, cs, i).to_multiset()
            &&& forall|i: nat, k: u64|
                i < chunk_count ==> #[trigger] key_filter(chunk_of(final(table)@, cs, i), k)
                    == key_filter(chunk_of(old(table)@, cs, i), k)
        }),
{
    let ghost orig = table@;
    let len = table.len();
    let cs = ceil_div(len, chunk_count);

    let mut acc: Vec<Tuple> = Vec::new();
    let mut start: usize = 0;
    let mut i: usize = 0;

    while i < chunk_count
        invariant
            chunk_count >= 1,
            len == orig.len(),
            table@ == orig,
            cs == chunk_len(orig.len(), chunk_count as nat),
            0 <= i <= chunk_count,
            start == chunk_start(orig.len(), cs as nat, i as nat),
            start <= len,
            acc@.len() == start,
            forall|n: nat|
                n < i ==> key_sorted(#[trigger] chunk_of(acc@, cs as nat, n)),
            forall|n: nat|
                n < i ==> (#[trigger] chunk_of(acc@, cs as nat, n)).to_multiset() == chunk_of(
                    orig,
                    cs as nat,
                    n,
                ).to_multiset(),
            forall|n: nat, k: u64|
                n < i ==> #[trigger] key_filter(chunk_of(acc@, cs as nat, n), k) == key_filter(
                    chunk_of(orig, cs as nat, n),
                    k,
                ),
        decreases chunk_count - i,
    {
        let end = if cs < len - start {
            start + cs
        } else {
            len
        };
        proof {
            lemma_chunk_start_step(orig.len(), cs as nat, i as nat);
            assert(end == chunk_start(orig.len(), cs as nat, (i + 1) as nat));
        }

        let mut piece: Vec<Tuple> = Vec::new();
        let mut idx = start;
        while idx < end
            invariant
                table@ == orig,
                start <= idx <= end,
                end <= orig.len(),
                len == orig.len(),
                piece@ == orig.subrange(start as int, idx as int),
            decreases end - idx,
        {
            piece.push(table[idx]);
            proof {
                assert(orig.subrange(start as int, idx + 1) =~= orig.subrange(
                    start as int,
                    idx as int,
                ).push(orig[idx as int]));
            }
            idx += 1;
        }
        proof {
            assert(piece@ =~= chunk_of(orig, cs as nat, i as nat));
        }

        sort_tuples_by_key(&mut piece);

        let ghost acc0 = acc@;
        let ghost piece_sorted = piece@;
        acc.append(&mut piece);

        proof {
            // Earlier chunks of `acc` are untouched by appending at the end,
            // and the new chunk is exactly the sorted piece.
            lemma_chunk_start_step(orig.len(), cs as nat, i as nat);
            assert forall|n: nat| n < i implies #[trigger] chunk_of(acc@, cs as nat, n)
                == chunk_of(acc0, cs as nat, n) by {
                lemma_chunk_start_step(orig.len(), cs as nat, n);
                assert(chunk_start(orig.len(), cs as nat, n + 1) <= chunk_start(
                    orig.len(),
                    cs as nat,
                    i as nat,
                )) by {
                    lemma_chunk_start_mono(orig.len(), cs as nat, (n + 1) as nat, i as nat);
                }
                assert(chunk_of(acc@, cs as nat, n) =~= chunk_of(acc0, cs as nat, n));
            }
            assert(chunk_of(acc@, cs as nat, i as nat) =~= piece_sorted);
        }
        start = end;
        i += 1;
    }

    proof {
        lemma_chunks_cover(orig.len(), chunk_count as nat);
        assert(acc@.len() == orig.len());
        lemma_chunks_multiset(acc@, orig, cs as nat, chunk_count as nat);
        lemma_chunks_prefix(acc@, cs as nat, chunk_count as nat);
        lemma_chunks_prefix(orig, cs as nat, chunk_count as nat);
        assert(acc@.take(orig.len() as int) =~= acc@);
        assert(orig.take(orig.len() as int) =~= orig);
    }

    *table = acc;
}

// --- radix binning -----------------------------------------------------------

/// Base-2 logarithm, rounding down.
pub open spec fn log2(p: nat) -> nat
    decreases p,
{
    if p <= 1 {
        0
    } else {
        1 + log2(p / 2)
    }
}

/// `p` is a power of two.
pub open spec fn is_power_of_two(p: nat) -> bool
    decreases p,
{
    if p == 1 {
        true
    } else if p < 2 {
        false
    } else {
        p % 2 == 0 && is_power_of_two(p / 2)
    }
}

/// For powers of two the base-2 logarithm is exact.
pub proof fn lemma_pow2_log2(p: nat)
    requires
        is_power_of_two(p),
    ensures
        pow2(log2(p)) == p,
    decreases p,
{
    if p <= 1 {
        assert(p == 1);
        assert(log2(1) == 0);
        vstd::arithmetic::power2::lemma2_to64();
    } else {
        lemma_pow2_log2(p / 2);
        assert(log2(p) == 1 + log2(p / 2));
        vstd::arithmetic::power2::lemma_pow2_unfold(log2(p));
        assert(pow2(log2(p)) == 2 * pow2(log2(p / 2)));
    }
}

/// The destination bin of a key: its topmost `bits` bits.
pub open spec fn bin_of(key: u64, bits: u64) -> u64 {
    key >> ((64 - bits) as u64)
}

/// A key's bin always lies below the partition count `2^bits`.
pub proof fn lemma_bin_of_bound(key: u64, bits: u64)
    requires
        1 <= bits <= 63,
    ensures
        bin_of(key, bits) < pow2(bits as nat),
{
    vstd::bits::lemma_u64_shr_is_div(key, (64 - bits) as u64);
    vstd::arithmetic::power2::lemma_pow2_adds((64 - bits) as nat, bits as nat);
    vstd::arithmetic::power2::lemma_pow2_pos((64 - bits) as nat);
    vstd::arithmetic::power2::lemma2_to64();
    assert((key as nat) / pow2((64 - bits) as nat) < pow2(bits as nat)) by (nonlinear_arith)
        requires
            (key as nat) < pow2((64 - bits) as nat) * pow2(bits as nat),
            pow2((64 - bits) as nat) >= 1,
    ;
}

/// The tuples of `s` whose keys fall in bin `b`, in input order.
pub open spec fn bin_filter(s: Seq<Tuple>, bits: u64, b: u64) -> Seq<Tuple>
    decreases s.len(),
{
    if s.len() == 0 {
        Seq::empty()
    } else {
        bin_filter(s.drop_last(), bits, b) + if bin_of(s.last().key, bits) == b {
            seq![s.last()]
        } else {
            Seq::empty()
        }
    }
}

/// How many tuples of `s` fall in bin `b`.
pub open spec fn bin_count(s: Seq<Tuple>, bits: u64, b: u64) -> nat {
    bin_filter(s, bits, b).len()
}

/// A bin holds at most as many tuples as the sequence it came from.
pub proof fn lemma_bin_count_le(s: Seq<Tuple>, bits: u64, b: u64)
    ensures
        bin_count(s, bits, b) <= s.len(),
    decreases s.len(),
{
    if s.len() > 0 {
        lemma_bin_count_le(s.drop_last(), bits, b);
    }
}

/// How many tuples of the first `n` chunks fall in bin `b`: the write offset
/// of chunk `n` inside partition `b`.
pub open spec fn bin_offset(t: Seq<Tuple>, cs: nat, bits: u64, b: u64, n: nat) -> nat
    decreases n,
{
    if n == 0 {
        0
    } else {
        bin_offset(t, cs, bits, b, (n - 1) as nat) + bin_count(
            chunk_of(t, cs, (n - 1) as nat),
            bits,
            b,
        )
    }
}

/// A bin's write offset never exceeds the prefix of the table scattered so
/// far, and in particular never exceeds the table's length.
pub proof fn lemma_bin_offset_le_start(t: Seq<Tuple>, cs: nat, bits: u64, b: u64, n: nat)
    ensures
        bin_offset(t, cs, bits, b, n) <= chunk_start(t.len(), cs, n),
    decreases n,
{
    if n > 0 {
        lemma_bin_offset_le_start(t, cs, bits, b, (n - 1) as nat);
        lemma_bin_count_le(chunk_of(t, cs, (n - 1) as nat), bits, b);
        lemma_chunk_start_step(t.len(), cs, (n - 1) as nat);
    } else {
        assert(0 * cs == 0) by (nonlinear_arith);
    }
}

/// Converts a power-of-two partition count into its radix bit width.
pub fn radix_bits_of(p: usize) -> (bits: u64)
    requires
        p >= 2,
        is_power_of_two(p as nat),
    ensures
        bits == log2(p as nat),
        1 <= bits <= 63,
        pow2(bits as nat) == p,
{
    let ghost lp = log2(p as nat);
    proof {
        lemma_pow2_log2(p as nat);
        if lp >= 64 {
            if lp > 64 {
                lemma_pow2_strictly_increases(64, lp);
            }
            vstd::arithmetic::power2::lemma2_to64_rest();
            assert(false);
        }
    }
    let mut bits: u64 = 0;
    let mut v: usize = 1;
    proof {
        vstd::arithmetic::power2::lemma2_to64();
    }
    while v < p
        invariant
            p >= 2,
            pow2(lp) == p,
            lp == log2(p as nat),
            lp < 64,
            pow2(bits as nat) == v,
            bits == log2(v as nat),
            bits as nat <= lp,
            1 <= v <= p,
        decreases p - v,
    {
        proof {
            // v is a smaller power of two than p, so doubling stays within p.
            if (bits as nat) >= lp {
                if (bits as nat) > lp {
                    lemma_pow2_strictly_increases(lp, bits as nat);
                }
                assert(false);
            }
            if ((bits + 1) as nat) > lp {
                assert(false);
            }
            if ((bits + 1) as nat) < lp {
                lemma_pow2_strictly_increases((bits + 1) as nat, lp);
            }
            vstd::arithmetic::power2::lemma_pow2_unfold((bits + 1) as nat);
            assert(log2(2 * v as nat) == 1 + log2(v as nat));
        }
        v = v * 2;
        bits = bits + 1;
    }
    proof {
        if (bits as nat) != lp {
            if (bits as nat) > lp {
                lemma_pow2_strictly_increases(lp, bits as nat);
            } else {
                lemma_pow2_strictly_increases(bits as nat, lp);
            }
        }
        if bits == 0 {
            vstd::arithmetic::power2::lemma2_to64();
        }
        if (bits as nat) >= 64 {
            lemma_pow2_strictly_increases(63, bits as nat);
            vstd::arithmetic::power2::lemma2_to64_rest();
        }
    }
    bits
}

/// Counts, for every chunk of the table, how many of its tuples fall into
/// each radix bin. Each chunk's row is computed independently of the others,
/// one phase worker per chunk.
pub fn chunk_histograms(table: &Vec<Tuple>, chunk_count: usize) -> (histograms: Vec<Vec<u64>>)
    requires
        chunk_count >= 2,
        is_power_of_two(chunk_count as nat),
    ensures
        histograms@.len() == chunk_count,
        forall|i: int|
            0 <= i < chunk_count ==> (#[trigger] histograms@[i])@.len() == chunk_count,
        forall|i: int, b: int|
            0 <= i < chunk_count && 0 <= b < chunk_count ==> (#[trigger] histograms@[i]@[b])
                == bin_count(
                chunk_of(table@, chunk_len(table@.len(), chunk_count as nat), i as nat),
                log2(chunk_count as nat) as u64,
                b as u64,
            ),
{
    let len = table.len();
    let cs = ceil_div(len, chunk_count);
    let bits = radix_bits_of(chunk_count);
    let shift: u64 = 64 - bits;

    let mut histograms: Vec<Vec<u64>> = Vec::new();
    let mut start: usize = 0;
    let mut i: usize = 0;
    while i < chunk_count
        invariant
            chunk_count >= 2,
            len == table@.len(),
            cs == chunk_len(table@.len(), chunk_count as nat),
            1 <= bits <= 63,
            bits == log2(chunk_count as nat),
            pow2(bits as nat) == chunk_count,
            shift == 64 - bits,
            0 <= i <= chunk_count,
            start == chunk_start(table@.len(), cs as nat, i as nat),
            start <= len,
            histograms@.len() == i,
            forall|n: int| 0 <= n < i ==> (#[trigger] histograms@[n])@.len() == chunk_count,
            forall|n: int, b: int|
                0 <= n < i && 0 <= b < chunk_count ==> (#[trigger] histograms@[n]@[b])
                    == bin_count(chunk_of(table@, cs as nat, n as nat), bits, b as u64),
        decreases chunk_count - i,
    {
        let end = if cs < len - start {
            start + cs
        } else {
            len
        };
        proof {
            lemma_chunk_start_step(table@.len(), cs as nat, i as nat);
            assert(end == chunk_start(table@.len(), cs as nat, (i + 1) as nat));
        }

        let mut histogram: Vec<u64> = vec![0u64; chunk_count];
        proof {
            assert(table@.subrange(start as int, start as int) =~= Seq::<Tuple>::empty());
        }
        let mut idx = start;
        while idx < end
            invariant
                chunk_count >= 2,
                len == table@.len(),
                1 <= bits <= 63,
                pow2(bits as nat) == chunk_count,
                shift == 64 - bits,
                start <= idx <= end,
                end <= len,
                histogram@.len() == chunk_count,
                forall|b: int|
                    0 <= b < chunk_count ==> (#[trigger] histogram@[b]) == bin_count(
                        table@.subrange(start as int, idx as int),
                        bits,
                        b as u64,
                    ),
            decreases end - idx,
        {
            let key = table[idx].key;
            let hbin_wide = key >> shift;
            proof {
                lemma_bin_of_bound(key, bits);
            }
            let hbin = hbin_wide as usize;
            proof {
                lemma_bin_count_le(table@.subrange(start as int, idx as int), bits, hbin as u64);
                assert(table@.subrange(start as int, idx + 1).drop_last() =~= table@.subrange(
                    start as int,
                    idx as int,
                ));
                assert(table@.subrange(start as int, idx + 1).last() == table@[idx as int]);
            }
            let cnt = histogram[hbin] + 1;
            histogram[hbin] = cnt;
            proof {
                assert forall|b: int| 0 <= b < chunk_count implies (#[trigger] histogram@[b])
                    == bin_count(table@.subrange(start as int, idx + 1), bits, b as u64) by {
                    if b != hbin {
                        assert(bin_filter(table@.subrange(start as int, idx + 1), bits, b as u64)
                            =~= bin_filter(table@.subrange(start as int, idx as int), bits, b as u64));
                    }
                }
            }
            idx += 1;
        }
        proof {
            assert(table@.subrange(start as int, end as int) =~= chunk_of(
                table@,
                cs as nat,
                i as nat,
            ));
        }
        histograms.push(histogram);
        start = end;
        i += 1;
    }
    histograms
}

// --- scatter -----------------------------------------------------------------

/// The contents of destination partition `b` after the first `n` chunks have
/// been scattered: each chunk's bin-`b` tuples, chunk after chunk.
pub open spec fn scattered(t: Seq<Tuple>, cs: nat, bits: u64, b: u64, n: nat) -> Seq<Tuple>
    decreases n,
{
    if n == 0 {
        Seq::empty()
    } else {
        scattered(t, cs, bits, b, (n - 1) as nat) + bin_filter(
            chunk_of(t, cs, (n - 1) as nat),
            bits,
            b,
        )
    }
}

pub proof fn lemma_bin_filter_concat(a: Seq<Tuple>, b: Seq<Tuple>, bits: u64, bin: u64)
    ensures
        bin_filter(a + b, bits, bin) == bin_filter(a, bits, bin) + bin_filter(b, bits, bin),
    decreases b.len(),
{
    if b.len() == 0 {
        assert(a + b =~= a);
        assert(bin_filter(a, bits, bin) + bin_filter(b, bits, bin) =~= bin_filter(a, bits, bin));
    } else {
        assert((a + b).drop_last() =~= a + b.drop_last());
        assert((a + b).last() == b.last());
        lemma_bin_filter_concat(a, b.drop_last(), bits, bin);
        assert(bin_filter(a + b, bits, bin) =~= bin_filter(a, bits, bin) + bin_filter(
            b,
            bits,
            bin,
        ));
    }
}

/// Chunk after chunk, a partition accumulates exactly the bin's tuples from
/// the table's prefix; with every chunk scattered it holds exactly the
/// table's bin-`b` tuples, in input order.
pub proof fn lemma_scattered_whole(t: Seq<Tuple>, cs: nat, bits: u64, b: u64, n: nat)
    ensures
        scattered(t, cs, bits, b, n) == bin_filter(
            t.take(chunk_start(t.len(), cs, n) as int),
            bits,
            b,
        ),
    decreases n,
{
    if n == 0 {
        assert(chunk_start(t.len(), cs, 0) == 0) by {
            assert(0 * cs == 0) by (nonlinear_arith);
        }
        assert(t.take(0) =~= Seq::<Tuple>::empty());
    } else {
        lemma_scattered_whole(t, cs, bits, b, (n - 1) as nat);
        lemma_chunk_start_step(t.len(), cs, (n - 1) as nat);
        lemma_bin_filter_concat(
            t.take(chunk_start(t.len(), cs, (n - 1) as nat) as int),
            chunk_of(t, cs, (n - 1) as nat),
            bits,
            b,
        );
        assert(t.take(chunk_start(t.len(), cs, (n - 1) as nat) as int) + chunk_of(
            t,
            cs,
            (n - 1) as nat,
        ) =~= t.take(chunk_start(t.len(), cs, n) as int));
    }
}

/// A partition's length is the bin's cumulative count — the prefix-sum entry.
pub proof fn lemma_scattered_len(t: Seq<Tuple>, cs: nat, bits: u64, b: u64, n: nat)
    ensures
        scattered(t, cs, bits, b, n).len() == bin_offset(t, cs, bits, b, n),
    decreases n,
{
    if n > 0 {
        lemma_scattered_len(t, cs, bits, b, (n - 1) as nat);
    }
}

/// Write offsets only grow with the chunk index.
pub proof fn lemma_bin_offset_mono(t: Seq<Tuple>, cs: nat, bits: u64, b: u64, i: nat, j: nat)
    requires
        i <= j,
    ensures
        bin_offset(t, cs, bits, b, i) <= bin_offset(t, cs, bits, b, j),
    decreases j,
{
    if i < j {
        lemma_bin_offset_mono(t, cs, bits, b, i, (j - 1) as nat);
    }
}

/// The tiling invariant of the scatter phase: inside partition `b`, chunk
/// `i`'s tuples occupy exactly the half-open range between offsets `i` and
/// `i + 1`, so the per-(chunk, bin) ranges tile every partition with no gaps
/// and no overlaps.
pub proof fn lemma_scattered_tile(t: Seq<Tuple>, cs: nat, bits: u64, b: u64, i: nat, n: nat)
    requires
        i < n,
    ensures
        scattered(t, cs, bits, b, n).subrange(
            bin_offset(t, cs, bits, b, i) as int,
            bin_offset(t, cs, bits, b, i + 1) as int,
        ) == bin_filter(chunk_of(t, cs, i), bits, b),
    decreases n,
{
    lemma_scattered_len(t, cs, bits, b, n);
    lemma_scattered_len(t, cs, bits, b, (n - 1) as nat);
    lemma_bin_offset_mono(t, cs, bits, b, i + 1, n);
    if n == i + 1 {
        assert(scattered(t, cs, bits, b, n).subrange(
            bin_offset(t, cs, bits, b, i) as int,
            bin_offset(t, cs, bits, b, i + 1) as int,
        ) =~= bin_filter(chunk_of(t, cs, i), bits, b));
    } else {
        lemma_scattered_tile(t, cs, bits, b, i, (n - 1) as nat);
        lemma_bin_offset_mono(t, cs, bits, b, i + 1, (n - 1) as nat);
        assert(scattered(t, cs, bits, b, n).subrange(
            bin_offset(t, cs, bits, b, i) as int,
            bin_offset(t, cs, bits, b, i + 1) as int,
        ) =~= scattered(t, cs, bits, b, (n - 1) as nat).subrange(
            bin_offset(t, cs, bits, b, i) as int,
            bin_offset(t, cs, bits, b, i + 1) as int,
        ));
    }
}

/// Everything in a bin's filtered sequence really falls in that bin.
pub proof fn lemma_bin_filter_bins(s: Seq<Tuple>, bits: u64, b: u64)
    ensures
        forall|n: int|
            0 <= n < bin_filter(s, bits, b).len() ==> bin_of(
                (#[trigger] bin_filter(s, bits, b)[n]).key,
                bits,
            ) == b,
    decreases s.len(),
{
    if s.len() > 0 {
        lemma_bin_filter_bins(s.drop_last(), bits, b);
        let pre = bin_filter(s.drop_last(), bits, b);
        assert forall|n: int| 0 <= n < bin_filter(s, bits, b).len() implies bin_of(
            (#[trigger] bin_filter(s, bits, b)[n]).key,
            bits,
        ) == b by {
            if n < pre.len() {
                assert(bin_filter(s, bits, b)[n] == pre[n]);
            }
        }
    }
}

/// Everything scattered into partition `b` falls in bin `b`: a worker never
/// writes a tuple outside the partition its key selects.
pub proof fn lemma_scattered_bins(t: Seq<Tuple>, cs: nat, bits: u64, b: u64, n: nat)
    ensures
        forall|m: int|
            0 <= m < scattered(t, cs, bits, b, n).len() ==> bin_of(
                (#[trigger] scattered(t, cs, bits, b, n)[m]).key,
                bits,
            ) == b,
    decreases n,
{
    if n > 0 {
        lemma_scattered_bins(t, cs, bits, b, (n - 1) as nat);
        lemma_bin_filter_bins(chunk_of(t, cs, (n - 1) as nat), bits, b);
        let pre = scattered(t, cs, bits, b, (n - 1) as nat);
        let piece = bin_filter(chunk_of(t, cs, (n - 1) as nat), bits, b);
        assert forall|m: int| 0 <= m < scattered(t, cs, bits, b, n).len() implies bin_of(
            (#[trigger] scattered(t, cs, bits, b, n)[m]).key,
            bits,
        ) == b by {
            if m < pre.len() {
                assert(scattered(t, cs, bits, b, n)[m] == pre[m]);
            } else {
                assert(scattered(t, cs, bits, b, n)[m] == piece[m - pre.len()]);
            }
        }
    }
}

/// A histogram column summed over the first `n` rows is the scatter write
/// offset of chunk `n` for that bin.
pub proof fn lemma_col_sum_is_bin_offset(
    h: Seq<Vec<u64>>,
    t: Seq<Tuple>,
    cs: nat,
    bits: u64,
    b: u64,
    n: nat,
)
    requires
        n <= h.len(),
        forall|i: int|
            0 <= i < n ==> (#[trigger] h[i])@[b as int] == bin_count(
                chunk_of(t, cs, i as nat),
                bits,
                b,
            ),
        forall|i: int| 0 <= i < n ==> (#[trigger] h[i])@.len() > b,
    ensures
        crate::histograms::col_sum(h, n as int, b as int) == bin_offset(t, cs, bits, b, n),
    decreases n,
{
    if n > 0 {
        lemma_col_sum_is_bin_offset(h, t, cs, bits, b, (n - 1) as nat);
    }
}

/// Redistributes the table's tuples into `chunk_count` freshly allocated
/// partitions, one per radix bin. Conceptually each chunk is handled by its
/// own worker, which writes chunk `i`'s bin-`b` tuples into partition `b` at
/// the pre-computed offset range `[prefix_sums[i][b], prefix_sums[i+1][b])`;
/// the tiling of those ranges (no gaps, no overlaps) is what lets the real
/// workers share the output buffers without synchronization.
pub fn scatter(table: &Vec<Tuple>, chunk_count: usize, prefix_sums: &Vec<Vec<u64>>) -> (partitions:
    Vec<Vec<Tuple>>)
    requires
        chunk_count >= 2,
        is_power_of_two(chunk_count as nat),
        prefix_sums@.len() == chunk_count + 1,
        forall|i: int|
            0 <= i <= chunk_count ==> (#[trigger] prefix_sums@[i])@.len() == chunk_count,
        forall|i: int, b: int|
            0 <= i <= chunk_count && 0 <= b < chunk_count ==> (#[trigger] prefix_sums@[i]@[b])
                as nat == bin_offset(
                table@,
                chunk_len(table@.len(), chunk_count as nat),
                log2(chunk_count as nat) as u64,
                b as u64,
                i as nat,
            ),
    ensures
        partitions@.len() == chunk_count,
        ({
            let cs = chunk_len(table@.len(), chunk_count as nat);
            let bits = log2(chunk_count as nat) as u64;
            &&& forall|b: int|
                0 <= b < chunk_count ==> (#[trigger] partitions@[b])@ == scattered(
                    table@,
                    cs,
                    bits,
                    b as u64,
                    chunk_count as nat,
                )
            &&& forall|b: int|
                0 <= b < chunk_count ==> (#[trigger] partitions@[b])@.len()
                    == prefix_sums@[chunk_count as int]@[b]
            &&& forall|i: int, b: int|
                0 <= i < chunk_count && 0 <= b < chunk_count ==> #[trigger] partitions@[b]@.subrange(
                    prefix_sums@[i]@[b] as int,
                    prefix_sums@[i + 1]@[b] as int,
                ) == bin_filter(chunk_of(table@, cs, i as nat), bits, b as u64)
            &&& forall|b: int, m: int|
                0 <= b < chunk_count && 0 <= m < partitions@[b]@.len() ==> bin_of(
                    (#[trigger] partitions@[b]@[m]).key,
                    bits,
                ) == b
        }),
{
    let len = table.len();
    let cs = ceil_div(len, chunk_count);
    let bits = radix_bits_of(chunk_count);
    let shift: u64 = 64 - bits;

    let mut partitions: Vec<Vec<Tuple>> = Vec::new();
    let mut b: usize = 0;
    while b < chunk_count
        invariant
            chunk_count >= 2,
            len == table@.len(),
            cs == chunk_len(table@.len(), chunk_count as nat),
            1 <= bits <= 63,
            bits == log2(chunk_count as nat),
            pow2(bits as nat) == chunk_count,
            shift == 64 - bits,
            0 <= b <= chunk_count,
            partitions@.len() == b,
            forall|bb: int|
                0 <= bb < b ==> (#[trigger] partitions@[bb])@ == scattered(
                    table@,
                    cs as nat,
                    bits,
                    bb as u64,
                    chunk_count as nat,
                ),
        decreases chunk_count - b,
    {
        let mut part: Vec<Tuple> = Vec::new();
        let mut start: usize = 0;
        let mut i: usize = 0;
        while i < chunk_count
            invariant
                chunk_count >= 2,
                len == table@.len(),
                cs == chunk_len(table@.len(), chunk_count as nat),
                1 <= bits <= 63,
                pow2(bits as nat) == chunk_count,
                shift == 64 - bits,
                b < chunk_count,
                0 <= i <= chunk_count,
                start == chunk_start(table@.len(), cs as nat, i as nat),
                start <= len,
                part@ == scattered(table@, cs as nat, bits, b as u64, i as nat),
            decreases chunk_count - i,
        {
            let end = if cs < len - start {
                start + cs
            } else {
                len
            };
            proof {
                lemma_chunk_start_step(table@.len(), cs as nat, i as nat);
                assert(end == chunk_start(table@.len(), cs as nat, (i + 1) as nat));
                assert(table@.subrange(start as int, start as int) =~= Seq::<Tuple>::empty());
            }

            let ghost part_base = part@;
            let mut idx = start;
            while idx < end
                invariant
                    len == table@.len(),
                    1 <= bits <= 63,
                    pow2(bits as nat) == chunk_count,
                    shift == 64 - bits,
                    b < chunk_count,
                    start <= idx <= end,
                    end <= len,
                    part@ == part_base + bin_filter(
                        table@.subrange(start as int, idx as int),
                        bits,
                        b as u64,
                    ),
                decreases end - idx,
            {
                let t = table[idx];
                proof {
                    lemma_bin_of_bound(t.key, bits);
                    assert(table@.subrange(start as int, idx + 1).drop_last() =~= table@.subrange(
                        start as int,
                        idx as int,
                    ));
                    assert(table@.subrange(start as int, idx + 1).last() == table@[idx as int]);
                }
                let hbin = (t.key >> shift) as usize;
                if hbin == b {
                    part.push(t);
                } else {
                    proof {
                        assert(part@ =~= part_base + bin_filter(
                            table@.subrange(start as int, idx + 1),
                            bits,
                            b as u64,
                        ));
                    }
                }
                idx += 1;
            }
            proof {
                assert(table@.subrange(start as int, end as int) =~= chunk_of(
                    table@,
                    cs as nat,
                    i as nat,
                ));
            }
            start = end;
            i += 1;
        }
        partitions.push(part);
        b += 1;
    }

    proof {
        let csn = chunk_len(table@.len(), chunk_count as nat);
        let bitsn = log2(chunk_count as nat) as u64;
        assert forall|bb: int, ii: int|
            0 <= ii < chunk_count && 0 <= bb < chunk_count implies #[trigger] partitions@[bb]@.subrange(
            prefix_sums@[ii]@[bb] as int,
            prefix_sums@[ii + 1]@[bb] as int,
        ) == bin_filter(chunk_of(table@, csn, ii as nat), bitsn, bb as u64) by {
            lemma_scattered_tile(table@, csn, bitsn, bb as u64, ii as nat, chunk_count as nat);
        }
        assert forall|bb: int| 0 <= bb < chunk_count implies (#[trigger] partitions@[bb])@.len()
            == prefix_sums@[chunk_count as int]@[bb] by {
            lemma_scattered_len(table@, csn, bitsn, bb as u64, chunk_count as nat);
        }
        assert forall|bb: int, m: int|
            0 <= bb < chunk_count && 0 <= m < partitions@[bb]@.len() implies bin_of(
            (#[trigger] partitions@[bb]@[m]).key,
            bitsn,
        ) == bb by {
            lemma_scattered_bins(table@, csn, bitsn, bb as u64, chunk_count as nat);
        }
    }

    partitions
}

// --- partition tiling and scatter fidelity ------------------------------------

/// Sum of one sequence's bin counts over bins `0..nbins`.
pub open spec fn bin_count_sum(s: Seq<Tuple>, bits: u64, nbins: nat) -> nat
    decreases nbins,
{
    if nbins == 0 {
        0
    } else {
        bin_count_sum(s, bits, (nbins - 1) as nat) + bin_count(
            s,
            bits,
            ((nbins - 1) as nat) as u64,
        )
    }
}

/// Multiset union of one sequence's bins `0..nbins`.
pub open spec fn bins_union(s: Seq<Tuple>, bits: u64, nbins: nat) -> Multiset<Tuple>
    decreases nbins,
{
    if nbins == 0 {
        Multiset::empty()
    } else {
        bins_union(s, bits, (nbins - 1) as nat).add(
            bin_filter(s, bits, ((nbins - 1) as nat) as u64).to_multiset(),
        )
    }
}

/// Appending one tuple grows exactly its own bin.
pub proof fn lemma_bin_sums_push(s: Seq<Tuple>, x: Tuple, bits: u64, nbins: nat)
    requires
        nbins <= u64::MAX,
    ensures
        bin_count_sum(s.push(x), bits, nbins) == bin_count_sum(s, bits, nbins) + if (bin_of(
            x.key,
            bits,
        ) as nat) < nbins {
            1nat
        } else {
            0nat
        },
        bins_union(s.push(x), bits, nbins) == if (bin_of(x.key, bits) as nat) < nbins {
            bins_union(s, bits, nbins).insert(x)
        } else {
            bins_union(s, bits, nbins)
        },
    decreases nbins,
{
    broadcast use vstd::seq_lib::group_to_multiset_ensures;
    broadcast use vstd::multiset::group_multiset_axioms;

    if nbins > 0 {
        lemma_bin_sums_push(s, x, bits, (nbins - 1) as nat);
        let b = ((nbins - 1) as nat) as u64;
        assert(s.push(x).drop_last() =~= s);
        assert(s.push(x).last() == x);
        if bin_of(x.key, bits) == b {
            assert(bin_filter(s.push(x), bits, b) =~= bin_filter(s, bits, b).push(x));
            assert(bin_filter(s, bits, b).push(x).to_multiset() == bin_filter(
                s,
                bits,
                b,
            ).to_multiset().insert(x));
            assert(bins_union(s.push(x), bits, nbins) =~= bins_union(s, bits, nbins).insert(x));
        } else {
            assert(bin_filter(s.push(x), bits, b) =~= bin_filter(s, bits, b));
            if (bin_of(x.key, bits) as nat) < nbins {
                assert(bins_union(s.push(x), bits, nbins) =~= bins_union(
                    s,
                    bits,
                    nbins,
                ).insert(x));
            }
        }
    }
}

/// With every key binned below `nbins`, the bins partition the sequence:
/// their counts sum to its length and their union restores its multiset.
pub proof fn lemma_bins_partition(s: Seq<Tuple>, bits: u64, nbins: nat)
    requires
        1 <= bits <= 63,
        nbins == pow2(bits as nat),
    ensures
        bin_count_sum(s, bits, nbins) == s.len(),
        bins_union(s, bits, nbins) == s.to_multiset(),
    decreases s.len(),
{
    broadcast use vstd::seq_lib::group_to_multiset_ensures;
    broadcast use vstd::multiset::group_multiset_axioms;

    assert(nbins <= u64::MAX) by {
        if (bits as nat) < 63 {
            lemma_pow2_strictly_increases(bits as nat, 63);
        }
        vstd::arithmetic::power2::lemma2_to64_rest();
    }
    if s.len() == 0 {
        lemma_bins_empty(s, bits, nbins);
        assert(s.to_multiset() =~= Multiset::empty());
    } else {
        lemma_bins_partition(s.drop_last(), bits, nbins);
        lemma_bin_of_bound(s.last().key, bits);
        lemma_bin_sums_push(s.drop_last(), s.last(), bits, nbins);
        assert(s.drop_last().push(s.last()) =~= s);
        assert(s.drop_last().push(s.last()).to_multiset() == s.drop_last().to_multiset().insert(
            s.last(),
        ));
    }
}

/// Bins of the empty sequence are empty.
pub proof fn lemma_bins_empty(s: Seq<Tuple>, bits: u64, nbins: nat)
    requires
        s.len() == 0,
    ensures
        bin_count_sum(s, bits, nbins) == 0,
        bins_union(s, bits, nbins) == Multiset::<Tuple>::empty(),
    decreases nbins,
{
    broadcast use vstd::multiset::group_multiset_axioms;
    broadcast use vstd::multiset::lemma_multiset_empty_len;
    broadcast use vstd::seq_lib::group_to_multiset_ensures;

    if nbins > 0 {
        lemma_bins_empty(s, bits, (nbins - 1) as nat);
        assert(bin_filter(s, bits, ((nbins - 1) as nat) as u64) =~= Seq::<Tuple>::empty());
        assert(Seq::<Tuple>::empty().to_multiset() =~= Multiset::<Tuple>::empty());
        assert(bins_union(s, bits, nbins) =~= Multiset::<Tuple>::empty());
    }
}

/// Sum over bins `0..nbins` of the write offsets of chunk `m`.
pub open spec fn bin_offset_sum(t: Seq<Tuple>, cs: nat, bits: u64, nbins: nat, m: nat) -> nat
    decreases nbins,
{
    if nbins == 0 {
        0
    } else {
        bin_offset_sum(t, cs, bits, (nbins - 1) as nat, m) + bin_offset(
            t,
            cs,
            bits,
            ((nbins - 1) as nat) as u64,
            m,
        )
    }
}

/// Multiset union over bins `0..nbins` of the scattered partitions.
pub open spec fn scattered_union(t: Seq<Tuple>, cs: nat, bits: u64, nbins: nat, m: nat) -> Multiset<
    Tuple,
>
    decreases nbins,
{
    if nbins == 0 {
        Multiset::empty()
    } else {
        scattered_union(t, cs, bits, (nbins - 1) as nat, m).add(
            scattered(t, cs, bits, ((nbins - 1) as nat) as u64, m).to_multiset(),
        )
    }
}

/// One more chunk adds its bins to every partition-wide sum.
pub proof fn lemma_partition_sums_step(t: Seq<Tuple>, cs: nat, bits: u64, nbins: nat, m: nat)
    requires
        m >= 1,
    ensures
        bin_offset_sum(t, cs, bits, nbins, m) == bin_offset_sum(t, cs, bits, nbins, (m - 1) as nat)
            + bin_count_sum(chunk_of(t, cs, (m - 1) as nat), bits, nbins),
        scattered_union(t, cs, bits, nbins, m) == scattered_union(
            t,
            cs,
            bits,
            nbins,
            (m - 1) as nat,
        ).add(bins_union(chunk_of(t, cs, (m - 1) as nat), bits, nbins)),
    decreases nbins,
{
    broadcast use vstd::multiset::group_multiset_axioms;

    if nbins > 0 {
        lemma_partition_sums_step(t, cs, bits, (nbins - 1) as nat, m);
        let b = ((nbins - 1) as nat) as u64;
        lemma_multiset_commutative(
            scattered(t, cs, bits, b, (m - 1) as nat),
            bin_filter(chunk_of(t, cs, (m - 1) as nat), bits, b),
        );
        assert(scattered_union(t, cs, bits, nbins, m) =~= scattered_union(
            t,
            cs,
            bits,
            nbins,
            (m - 1) as nat,
        ).add(bins_union(chunk_of(t, cs, (m - 1) as nat), bits, nbins)));
    }
}

/// Scatter fidelity: across all `pow2(bits)` partitions, the scattered
/// output of the first `m` chunks holds exactly the multiset of those
/// chunks, and as many tuples as they contain. With `m` the chunk count this
/// is the whole table: no tuple is lost or duplicated.
pub proof fn lemma_scatter_fidelity(t: Seq<Tuple>, cs: nat, bits: u64, nbins: nat, m: nat)
    requires
        1 <= bits <= 63,
        nbins == pow2(bits as nat),
    ensures
        bin_offset_sum(t, cs, bits, nbins, m) == chunk_start(t.len(), cs, m),
        scattered_union(t, cs, bits, nbins, m) == chunks_prefix(t, cs, m).to_multiset(),
    decreases m,
{
    broadcast use vstd::multiset::group_multiset_axioms;
    broadcast use vstd::multiset::lemma_multiset_empty_len;
    broadcast use vstd::seq_lib::group_to_multiset_ensures;

    if m == 0 {
        lemma_offset_sum_zero(t, cs, bits, nbins);
        assert(chunk_start(t.len(), cs, 0) == 0) by {
            assert(0 * cs == 0) by (nonlinear_arith);
        }
        assert(chunks_prefix(t, cs, 0).to_multiset() =~= Multiset::<Tuple>::empty());
        assert(scattered_union(t, cs, bits, nbins, 0) =~= Multiset::<Tuple>::empty()) by {
            lemma_scattered_union_zero(t, cs, bits, nbins);
        }
    } else {
        lemma_scatter_fidelity(t, cs, bits, nbins, (m - 1) as nat);
        lemma_partition_sums_step(t, cs, bits, nbins, m);
        lemma_bins_partition(chunk_of(t, cs, (m - 1) as nat), bits, nbins);
        lemma_chunk_start_step(t.len(), cs, (m - 1) as nat);
        lemma_multiset_commutative(
            chunks_prefix(t, cs, (m - 1) as nat),
            chunk_of(t, cs, (m - 1) as nat),
        );
    }
}

/// With no chunks scattered, every partition-wide sum is zero.
pub proof fn lemma_offset_sum_zero(t: Seq<Tuple>, cs: nat, bits: u64, nbins: nat)
    ensures
        bin_offset_sum(t, cs, bits, nbins, 0) == 0,
    decreases nbins,
{
    if nbins > 0 {
        lemma_offset_sum_zero(t, cs, bits, (nbins - 1) as nat);
    }
}

/// With no chunks scattered, every partition is empty.
pub proof fn lemma_scattered_union_zero(t: Seq<Tuple>, cs: nat, bits: u64, nbins: nat)
    ensures
        scattered_union(t, cs, bits, nbins, 0) == Multiset::<Tuple>::empty(),
    decreases nbins,
{
    broadcast use vstd::multiset::group_multiset_axioms;
    broadcast use vstd::multiset::lemma_multiset_empty_len;
    broadcast use vstd::seq_lib::group_to_multiset_ensures;

    if nbins > 0 {
        lemma_scattered_union_zero(t, cs, bits, (nbins - 1) as nat);
        assert(scattered(t, cs, bits, ((nbins - 1) as nat) as u64, 0).to_multiset().len() == 0);
        assert(scattered_union(t, cs, bits, nbins, 0) =~= Multiset::<Tuple>::empty());
    }
}

/// Partition tiling: each histogram row sums to its own chunk's length, and
/// the final prefix-sum row sums to the whole table's length, so the
/// destination partitions are sized to take every tuple exactly once.
pub proof fn lemma_partition_tiling(
    table: Seq<Tuple>,
    histograms: Seq<Vec<u64>>,
    ps: Seq<Vec<u64>>,
    chunk_count: nat,
)
    requires
        chunk_count >= 2,
        chunk_count <= usize::MAX,
        is_power_of_two(chunk_count),
        histograms.len() == chunk_count,
        forall|i: int|
            0 <= i < chunk_count ==> (#[trigger] histograms[i])@.len() == chunk_count,
        forall|i: int, b: int|
            0 <= i < chunk_count && 0 <= b < chunk_count ==> (#[trigger] histograms[i]@[b])
                == bin_count(
                chunk_of(table, chunk_len(table.len(), chunk_count), i as nat),
                log2(chunk_count) as u64,
                b as u64,
            ),
        ps.len() == chunk_count + 1,
        forall|i: int| 0 <= i <= chunk_count ==> (#[trigger] ps[i])@.len() == chunk_count,
        forall|i: int, b: int|
            0 <= i <= chunk_count && 0 <= b < chunk_count ==> (#[trigger] ps[i]@[b])
                == crate::histograms::col_sum(histograms, i, b),
    ensures
        forall|i: int|
            0 <= i < chunk_count ==> crate::histograms::row_sum(
                (#[trigger] histograms[i])@,
                chunk_count as int,
            ) == chunk_of(table, chunk_len(table.len(), chunk_count), i as nat).len(),
        crate::histograms::row_sum(ps[chunk_count as int]@, chunk_count as int) == table.len(),
{
    let cs = chunk_len(table.len(), chunk_count);
    let bits = log2(chunk_count) as u64;
    lemma_pow2_log2(chunk_count);
    lemma_log2_bits_range(chunk_count);
    assert forall|i: int| 0 <= i < chunk_count implies crate::histograms::row_sum(
        (#[trigger] histograms[i])@,
        chunk_count as int,
    ) == chunk_of(table, cs, i as nat).len() by {
        lemma_row_sum_is_bin_count_sum(histograms[i]@, chunk_of(table, cs, i as nat), bits, chunk_count as int);
        lemma_bins_partition(chunk_of(table, cs, i as nat), bits, chunk_count);
    }
    assert forall|i: int, b: int|
        0 <= i <= chunk_count && 0 <= b < chunk_count implies (#[trigger] ps[i]@[b]) as nat
        == bin_offset(table, cs, bits, b as u64, i as nat) by {
        lemma_col_sum_is_bin_offset(histograms, table, cs, bits, b as u64, i as nat);
    }
    lemma_row_sum_is_bin_offset_sum(ps[chunk_count as int]@, table, cs, bits, chunk_count, chunk_count as int);
    lemma_scatter_fidelity(table, cs, bits, chunk_count, chunk_count);
    lemma_chunks_cover(table.len(), chunk_count);
}

/// The radix bit width of a power-of-two partition count of machine size is
/// between one and sixty-three.
pub proof fn lemma_log2_bits_range(p: nat)
    requires
        p >= 2,
        p <= usize::MAX,
        is_power_of_two(p),
    ensures
        1 <= log2(p) <= 63,
{
    lemma_pow2_log2(p);
    if log2(p) == 0 {
        vstd::arithmetic::power2::lemma2_to64();
    }
    if log2(p) >= 64 {
        if log2(p) > 64 {
            lemma_pow2_strictly_increases(64, log2(p));
        }
        vstd::arithmetic::power2::lemma2_to64_rest();
    }
}

/// A histogram row summed over the bins is the chunk's bin-count sum.
pub proof fn lemma_row_sum_is_bin_count_sum(r: Seq<u64>, s: Seq<Tuple>, bits: u64, n: int)
    requires
        0 <= n <= r.len(),
        forall|b: int| 0 <= b < n ==> (#[trigger] r[b]) == bin_count(s, bits, b as u64),
    ensures
        crate::histograms::row_sum(r, n) == bin_count_sum(s, bits, n as nat),
    decreases n,
{
    if n > 0 {
        lemma_row_sum_is_bin_count_sum(r, s, bits, n - 1);
    }
}

/// The final prefix-sum row summed over the bins is the offset sum.
pub proof fn lemma_row_sum_is_bin_offset_sum(
    r: Seq<u64>,
    t: Seq<Tuple>,
    cs: nat,
    bits: u64,
    m: nat,
    n: int,
)
    requires
        0 <= n <= r.len(),
        forall|b: int| 0 <= b < n ==> (#[trigger] r[b]) as nat == bin_offset(t, cs, bits, b as u64, m),
    ensures
        crate::histograms::row_sum(r, n) == bin_offset_sum(t, cs, bits, n as nat, m),
    decreases n,
{
    if n > 0 {
        lemma_row_sum_is_bin_offset_sum(r, t, cs, bits, m, n - 1);
    }
}

/// Chunk starts are monotone in the chunk index.
pub proof fn lemma_chunk_start_mono(len: nat, cs: nat, i: nat, j: nat)
    requires
        i <= j,
    ensures
        chunk_start(len, cs, i) <= chunk_start(len, cs, j),
{
    assert(i * cs <= j * cs) by (nonlinear_arith)
        requires
            i <= j,
    ;
}

} // verus!
