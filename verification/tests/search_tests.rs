use mpsm::search::lb_binary_search;
use mpsm::search::lb_interpolation_search;
use mpsm::search::lb_linear_search;
use rand::Rng;
use rand::RngCore;

fn gen_keys<R: Rng>(n: usize, rng: &mut R) -> Vec<u64> {
    let mut output = Vec::new();
    for _ in 0..n {
        output.push(rng.random());
    }
    output
}

#[test]
fn lb_binary_search_test1() {
    assert_eq!(lb_binary_search(8, &Vec::new()), None);
}

#[test]
fn lb_binary_search_test2() {
    assert_eq!(lb_binary_search(8, &vec![5]), None);
}

#[test]
fn lb_binary_search_test3() {
    assert_eq!(lb_binary_search(5, &vec![5]), Some(0));
}

#[test]
fn lb_binary_search_test4() {
    assert_eq!(lb_binary_search(6, &vec![4, 5, 6, 6, 7, 8, 9]), Some(2));
}

#[test]
fn lb_binary_search_test5() {
    assert_eq!(lb_binary_search(6, &vec![4, 8]), Some(1));
}

#[test]
fn lb_search_test1() {
    let mut rng = rand::rng();
    let mut input = gen_keys(10000, &mut rng);
    input.sort();
    let target = rng.next_u64();

    let res1 = lb_linear_search(target, &input);
    let res2 = lb_binary_search(target, &input);

    assert_eq!(res1, res2);
}

#[test]
fn lb_interpolation_search_test1() {
    assert_eq!(lb_interpolation_search(8, &Vec::new()), None);
}

#[test]
fn lb_interpolation_search_test2() {
    assert_eq!(lb_interpolation_search(8, &vec![5]), None);
}

#[test]
fn lb_interpolation_search_test3() {
    assert_eq!(lb_interpolation_search(5, &vec![5]), Some(0));
}

#[test]
fn lb_interpolation_search_test5() {
    assert_eq!(lb_interpolation_search(5, &vec![4, 5, 5, 5]), Some(1));
}

#[test]
fn lb_interpolation_search_test6() {
    assert_eq!(lb_interpolation_search(6, &vec![4, 5, 6, 6, 7, 8, 9]), Some(2));
}

#[test]
fn lb_search_test2() {
    let mut rng = rand::rng();
    let mut input = gen_keys(10000, &mut rng);
    input.sort();
    let target = rng.next_u64();

    let res1 = lb_linear_search(target, &input);
    let res2 = lb_interpolation_search(target, &input);

    assert_eq!(res1, res2);
}
