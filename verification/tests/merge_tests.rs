use mpsm::merge::Merge;

#[test]
fn test1() {
    let data = vec![vec![3], vec![2, 2], vec![1], vec![5]];

    let mut m = Merge::new(data);
    assert_eq!(Some(1), m.next());
    assert_eq!(Some(2), m.next());
    assert_eq!(Some(2), m.next());
    assert_eq!(Some(3), m.next());
    assert_eq!(Some(5), m.next());
    assert_eq!(None, m.next());
    assert_eq!(None, m.next());
}

#[test]
fn test2() {
    let data = vec![vec![3, 7, 11], vec![2, 2, 6, 9], vec![1, 3, 8, 10, 11], vec![5, 12, 14]];
    let m = Merge::new(data);

    let res: Vec<i64> = m.merged();
    assert_eq!(vec![1, 2, 2, 3, 3, 5, 6, 7, 8, 9, 10, 11, 11, 12, 14], res);
}

#[test]
fn test3() {
    let data = vec![vec![], vec![2, 2, 6, 9], vec![1, 3, 8, 10, 11], vec![5, 12, 14]];
    let m = Merge::new(data);

    let res: Vec<i64> = m.merged();
    assert_eq!(vec![1, 2, 2, 3, 5, 6, 8, 9, 10, 11, 12, 14], res);
}

#[test]
fn merge_single_run() {
    let m = Merge::new(vec![vec![-3, 0, 0, 7]]);
    assert_eq!(vec![-3, 0, 0, 7], m.merged());
}

#[test]
fn merge_all_empty() {
    let mut m = Merge::new(vec![vec![], vec![], vec![]]);
    assert_eq!(None, m.next());
    assert_eq!(None, m.next());
}

#[test]
fn merge_three_runs() {
    let data = vec![vec![1, 4], vec![], vec![2, 3, 5]];
    let m = Merge::new(data);
    assert_eq!(vec![1, 2, 3, 4, 5], m.merged());
}

#[test]
fn merge_negative_and_duplicates() {
    let data = vec![vec![-5, -5, 10], vec![-6, -5]];
    let m = Merge::new(data);
    assert_eq!(vec![-6, -5, -5, -5, 10], m.merged());
}
