use inc_exc::subsets::gen_subsets;

#[test]
fn pairs_of_four() {
    let mut out = gen_subsets(4, 2);
    out.sort();
    assert_eq!(
        out,
        vec![vec![0, 1], vec![0, 2], vec![0, 3], vec![1, 2], vec![1, 3], vec![2, 3]]
    );
}

#[test]
fn empty_and_oversized() {
    assert_eq!(gen_subsets(3, 0), vec![Vec::<usize>::new()]);
    assert!(gen_subsets(2, 3).is_empty());
    assert_eq!(gen_subsets(5, 5), vec![vec![0, 1, 2, 3, 4]]);
}

#[test]
fn pairs_of_three_once_each() {
    let out = gen_subsets(3, 2);
    assert_eq!(out.len(), 3);
    let mut sorted = out.clone();
    sorted.sort();
    assert_eq!(sorted, vec![vec![0, 1], vec![0, 2], vec![1, 2]]);
    // binomial counts: 6 choose 3
    assert_eq!(gen_subsets(6, 3).len(), 20);
}
