use xprlib::gradient::seed_order;

#[test]
fn single_argument_seeds_in_order() {
    let order = seed_order(&vec![3]).unwrap();
    assert_eq!(order, vec![(0, 0), (0, 1), (0, 2)]);
}

#[test]
fn two_arguments_seed_first_list_then_second() {
    let order = seed_order(&vec![2, 2]).unwrap();
    assert_eq!(order, vec![(0, 0), (0, 1), (1, 0), (1, 1)]);
}

#[test]
fn empty_lists_are_skipped() {
    assert_eq!(seed_order(&vec![]).unwrap(), vec![]);
    assert_eq!(seed_order(&vec![0, 1, 0, 2]).unwrap(), vec![(1, 0), (3, 0), (3, 1)]);
}

#[test]
fn total_that_overflows_is_refused() {
    assert_eq!(seed_order(&vec![usize::MAX, 1]), None);
}
