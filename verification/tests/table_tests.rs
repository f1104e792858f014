use mpsm::infrastructure::table_eq;
use mpsm::infrastructure::zip_table;
use mpsm::tuples::Tuple;
use rand::rngs::StdRng;
use rand::Rng;
use rand::SeedableRng;

fn gen_keys<R: Rng>(n: usize, rng: &mut R) -> Vec<u64> {
    let mut output = Vec::new();
    for _ in 0..n {
        output.push(rng.random());
    }
    output
}

fn gen_table<R: Rng>(n: usize, rng: &mut R) -> Vec<Tuple> {
    let keys = gen_keys(n, rng);
    let payloads = gen_keys(n, rng);
    zip_table(&keys, &payloads)
}

#[test]
fn infrastructure_table_eq_test1() {
    let mut rng = StdRng::seed_from_u64(101);
    let t = gen_table(1000, &mut rng);

    assert!(table_eq(&t, &t));
}

#[test]
fn infrastructure_table_eq_test2() {
    let lt = vec![Tuple::new(5, 10), Tuple::new(6, 8), Tuple::new(2, 3)];
    let rt = vec![Tuple::new(2, 3), Tuple::new(5, 10), Tuple::new(6, 8), Tuple::new(2, 3)];
    assert!(!table_eq(&lt, &rt));
}

#[test]
fn infrastructure_table_eq_test3() {
    let lt = vec![
        Tuple::new(5, 10),
        Tuple::new(2, 3),
        Tuple::new(6, 8),
        Tuple::new(2, 3),
        Tuple::new(5, 10),
    ];
    let rt = vec![
        Tuple::new(2, 3),
        Tuple::new(5, 10),
        Tuple::new(5, 10),
        Tuple::new(6, 8),
        Tuple::new(2, 3),
    ];
    assert!(table_eq(&lt, &rt));
}

#[test]
fn tuple_table_eq_test1() {
    let mut rng = StdRng::seed_from_u64(101);
    let ltk = gen_keys(1000, &mut rng);
    let ltv = gen_keys(1000, &mut rng);
    let lt = zip_table(&ltk, &ltv);

    assert!(table_eq(&lt, &lt));
}

#[test]
fn tuple_table_eq_test2() {
    let lt = vec![Tuple::new(5, 10), Tuple::new(6, 8), Tuple::new(2, 3)];
    let rt = vec![Tuple::new(2, 3), Tuple::new(5, 10), Tuple::new(6, 8), Tuple::new(2, 3)];
    assert!(!table_eq(&lt, &rt));
}

#[test]
fn tuple_table_eq_test3() {
    let lt = vec![
        Tuple::new(5, 10),
        Tuple::new(2, 3),
        Tuple::new(6, 8),
        Tuple::new(2, 3),
        Tuple::new(5, 10),
    ];
    let rt = vec![
        Tuple::new(2, 3),
        Tuple::new(5, 10),
        Tuple::new(5, 10),
        Tuple::new(6, 8),
        Tuple::new(2, 3),
    ];
    assert!(table_eq(&lt, &rt));
}

#[test]
fn zip_table_pairs_columns() {
    let t = zip_table(&[1, 2, 3], &[10, 20, 30]);
    assert_eq!(t, vec![Tuple::new(1, 10), Tuple::new(2, 20), Tuple::new(3, 30)]);
}

#[test]
fn table_eq_same_keys_different_payloads() {
    let lt = vec![Tuple::new(5, 10)];
    let rt = vec![Tuple::new(5, 11)];
    assert!(!table_eq(&lt, &rt));
}
