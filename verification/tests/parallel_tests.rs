use mpsm::histograms::prefix_sums;
use mpsm::infrastructure::table_eq;
use mpsm::parallel::chunk_histograms;
use mpsm::parallel::scatter;
use mpsm::parallel::sort_runs_parallel;
use mpsm::tuples::Tuple;

fn key_in_bin(key: u64, bins: usize) -> usize {
    let bits = bins.trailing_zeros() as u64;
    (key >> (64 - bits)) as usize
}

fn sample_table() -> Vec<Tuple> {
    // Keys spread over the full 64-bit range so all four bins are hit.
    vec![
        Tuple::new(0x0000_0000_0000_0001, 1),
        Tuple::new(0x4500_0000_0000_0000, 2),
        Tuple::new(0x8a00_0000_0000_0000, 3),
        Tuple::new(0xff00_0000_0000_0000, 4),
        Tuple::new(0x0100_0000_0000_0000, 5),
        Tuple::new(0xc200_0000_0000_0000, 6),
        Tuple::new(0x7f00_0000_0000_0000, 7),
        Tuple::new(0x8000_0000_0000_0000, 8),
        Tuple::new(0x4000_0000_0000_0000, 9),
        Tuple::new(0xfeed_0000_0000_0000, 10),
    ]
}

#[test]
fn histogram_rows_sum_to_chunk_lengths() {
    let table = sample_table();
    let chunk_count = 4;
    let histograms = chunk_histograms(&table, chunk_count);
    assert_eq!(histograms.len(), chunk_count);

    // ceil(10 / 4) == 3, so the chunks have sizes 3, 3, 3, 1.
    let chunk_sizes = [3u64, 3, 3, 1];
    for (i, row) in histograms.iter().enumerate() {
        assert_eq!(row.len(), chunk_count);
        assert_eq!(row.iter().sum::<u64>(), chunk_sizes[i]);
    }
}

#[test]
fn final_prefix_sum_row_sums_to_table_length() {
    let table = sample_table();
    let chunk_count = 4;
    let histograms = chunk_histograms(&table, chunk_count);
    let ps = prefix_sums(&histograms);

    assert_eq!(ps.len(), chunk_count + 1);
    assert!(ps[0].iter().all(|&c| c == 0));
    assert_eq!(ps[chunk_count].iter().sum::<u64>(), table.len() as u64);
}

#[test]
fn scatter_preserves_multiset_and_bins() {
    let table = sample_table();
    let chunk_count = 4;
    let histograms = chunk_histograms(&table, chunk_count);
    let ps = prefix_sums(&histograms);
    let partitions = scatter(&table, chunk_count, &ps);

    assert_eq!(partitions.len(), chunk_count);
    for (b, part) in partitions.iter().enumerate() {
        assert_eq!(part.len() as u64, ps[chunk_count][b]);
        for t in part {
            assert_eq!(key_in_bin(t.key, chunk_count), b);
        }
    }

    let all: Vec<Tuple> = partitions.into_iter().flatten().collect();
    assert!(table_eq(&all, &table));
}

#[test]
fn sort_runs_sorts_each_chunk() {
    let mut table = vec![
        Tuple::new(9, 0),
        Tuple::new(1, 1),
        Tuple::new(5, 2),
        Tuple::new(7, 3),
        Tuple::new(2, 4),
        Tuple::new(2, 5),
        Tuple::new(8, 6),
    ];
    let original = table.clone();
    sort_runs_parallel(&mut table, 2);

    // ceil(7 / 2) == 4: chunks are [0..4) and [4..7), each sorted by key.
    let keys: Vec<u64> = table.iter().map(|t| t.key).collect();
    assert_eq!(keys, vec![1, 5, 7, 9, 2, 2, 8]);
    assert!(table_eq(&table, &original));
}
