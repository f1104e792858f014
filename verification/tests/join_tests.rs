use mpsm::join::basic_mpsm;
use mpsm::join::basic_sort_merge_join;
use mpsm::join::merge_join_sorted;
use mpsm::join::nested_loop_join;
use mpsm::join::partitioned_mpsm;
use mpsm::tuples::Joined;
use mpsm::tuples::Tuple;
use mpsm::infrastructure::zip_table;
use rand::rngs::StdRng;
use rand::seq::SliceRandom;
use rand::Rng;
use rand::SeedableRng;

fn gen_keys<R: Rng>(n: usize, rng: &mut R) -> Vec<u64> {
    let mut output = Vec::new();
    for _ in 0..n {
        output.push(rng.random());
    }
    output
}

fn gen_fact_keys<R: Rng>(key_set: &[u64], p: f64, rng: &mut R) -> Vec<u64> {
    let mut output = Vec::new();
    for x in key_set {
        while rng.random_bool(p) {
            output.push(*x);
        }
    }
    output
}

fn gen_tables<R: Rng>(n: usize, p: f64, rng: &mut R) -> (Vec<Tuple>, Vec<Tuple>) {
    let dimension_keys = gen_keys(n, rng);
    let dimension_payloads = gen_keys(n, rng);
    let dimension_table = zip_table(&dimension_keys, &dimension_payloads);

    let mut fact_keys = gen_fact_keys(&dimension_keys, p, rng);
    fact_keys.shuffle(rng);
    let fact_payloads = gen_keys(fact_keys.len(), rng);
    let fact_table = zip_table(&fact_keys, &fact_payloads);

    (fact_table, dimension_table)
}

/// Order-insensitive comparison of two join results.
fn joined_eq(left: &[Joined], right: &[Joined]) -> bool {
    let mut ls = left.to_vec();
    let mut rs = right.to_vec();
    ls.sort_by_key(|j| (j.key, j.left_payload, j.right_payload));
    rs.sort_by_key(|j| (j.key, j.left_payload, j.right_payload));
    ls == rs
}

fn scenario_left() -> Vec<Tuple> {
    vec![Tuple::new(5, 10), Tuple::new(6, 100), Tuple::new(2, 34), Tuple::new(7, 18)]
}

fn scenario_right() -> Vec<Tuple> {
    vec![
        Tuple::new(5, 15),
        Tuple::new(8, 16),
        Tuple::new(2, 36),
        Tuple::new(2, 18),
        Tuple::new(2, 8),
        Tuple::new(9, 9),
    ]
}

#[test]
fn basic_sort_merge_join_test() {
    // Dimension table
    let left = scenario_left();
    // Fact table. First column is a foreign key to dimension table
    let right = scenario_right();

    let mut output = basic_sort_merge_join(left, right).into_iter();
    assert_eq!(output.next(), Some(Joined::new(2, 34, 36)));
    assert_eq!(output.next(), Some(Joined::new(2, 34, 18)));
    assert_eq!(output.next(), Some(Joined::new(2, 34, 8)));
    assert_eq!(output.next(), Some(Joined::new(5, 10, 15)));
    assert_eq!(output.next(), None);
}

#[test]
fn nested_loop_join_test() {
    let left = scenario_left();
    let right = scenario_right();

    let mut output = nested_loop_join(&left, &right).into_iter();
    assert_eq!(output.next(), Some(Joined::new(5, 10, 15)));
    assert_eq!(output.next(), Some(Joined::new(2, 34, 36)));
    assert_eq!(output.next(), Some(Joined::new(2, 34, 18)));
    assert_eq!(output.next(), Some(Joined::new(2, 34, 8)));
    assert_eq!(output.next(), None);
}

#[test]
fn compare_sort_merge_nested_loop() {
    let mut rng = StdRng::seed_from_u64(101);
    let (lt, rt) = gen_tables(10000, 0.7, &mut rng);

    let nl_output = nested_loop_join(&lt, &rt);
    let sm_output = basic_sort_merge_join(lt, rt);

    assert!(joined_eq(&nl_output, &sm_output))
}

#[test]
fn compare_basic_mpsm_nested_loop() {
    let mut rng = StdRng::seed_from_u64(101);
    let (lt, rt) = gen_tables(10000, 0.7, &mut rng);

    let nl_output = nested_loop_join(&lt, &rt);
    let mpsm_output = basic_mpsm(lt, rt, 4).into_iter().flatten().collect::<Vec<Joined>>();

    assert!(joined_eq(&nl_output, &mpsm_output));
}

#[test]
fn compare_partitioned_mpsm_nested_loop() {
    let mut rng = StdRng::seed_from_u64(101);
    let (lt, rt) = gen_tables(10000, 0.7, &mut rng);

    let nl_output = nested_loop_join(&lt, &rt);
    let mpsm_output = partitioned_mpsm(lt, rt, 4).into_iter().flatten().collect::<Vec<Joined>>();

    assert!(joined_eq(&nl_output, &mpsm_output));
}

#[test]
fn join_scenario_all_strategies() {
    let expected = vec![
        Joined::new(2, 34, 36),
        Joined::new(2, 34, 18),
        Joined::new(2, 34, 8),
        Joined::new(5, 10, 15),
    ];

    let nl = nested_loop_join(&scenario_left(), &scenario_right());
    assert!(joined_eq(&nl, &expected));

    let sm = basic_sort_merge_join(scenario_left(), scenario_right());
    assert!(joined_eq(&sm, &expected));

    let bm = basic_mpsm(scenario_left(), scenario_right(), 3)
        .into_iter()
        .flatten()
        .collect::<Vec<Joined>>();
    assert!(joined_eq(&bm, &expected));

    let pm = partitioned_mpsm(scenario_left(), scenario_right(), 2)
        .into_iter()
        .flatten()
        .collect::<Vec<Joined>>();
    assert!(joined_eq(&pm, &expected));
}

#[test]
fn merge_join_sorted_cross_product() {
    // Three copies of key 4 on the left, two on the right: six records.
    let left = vec![Tuple::new(3, 1), Tuple::new(4, 10), Tuple::new(4, 11), Tuple::new(4, 12)];
    let right = vec![Tuple::new(4, 20), Tuple::new(4, 21), Tuple::new(5, 2)];
    let mut output = Vec::new();
    merge_join_sorted(&left, &right, &mut output);
    assert_eq!(
        output,
        vec![
            Joined::new(4, 10, 20),
            Joined::new(4, 10, 21),
            Joined::new(4, 11, 20),
            Joined::new(4, 11, 21),
            Joined::new(4, 12, 20),
            Joined::new(4, 12, 21),
        ]
    );
}

#[test]
fn join_empty_sides() {
    let some = vec![Tuple::new(1, 2)];
    assert!(nested_loop_join(&Vec::new(), &some).is_empty());
    assert!(nested_loop_join(&some, &Vec::new()).is_empty());
    assert!(basic_sort_merge_join(Vec::new(), Vec::new()).is_empty());
    let out = basic_mpsm(Vec::new(), some.clone(), 2);
    assert!(out.into_iter().flatten().next().is_none());
    let out = partitioned_mpsm(Vec::new(), some, 2);
    assert!(out.into_iter().flatten().next().is_none());
}

#[test]
fn basic_mpsm_single_worker() {
    let out = basic_mpsm(scenario_left(), scenario_right(), 1)
        .into_iter()
        .flatten()
        .collect::<Vec<Joined>>();
    let nl = nested_loop_join(&scenario_left(), &scenario_right());
    assert!(joined_eq(&out, &nl));
}
