use ra_fmt2::pattern::{all_known, has_kind, Pattern, PatternSet};

#[test]
fn pattern_matches_by_kind() {
    let p = Pattern::new(vec![3, 5]);
    assert!(p.matches_kinds(3, &vec![]));
    assert!(p.matches_kinds(5, &vec![9, 1]));
    assert!(!p.matches_kinds(4, &vec![3, 5]));
}

#[test]
fn pattern_may_ask_for_a_node_above() {
    let p = Pattern::inside(vec![3], vec![7, 8]);
    assert!(!p.matches_kinds(3, &vec![]));
    assert!(!p.matches_kinds(3, &vec![1, 2]));
    assert!(p.matches_kinds(3, &vec![1, 8, 0]));
    assert!(p.matches_kinds(3, &vec![7]));
    assert!(!p.matches_kinds(7, &vec![7]));
}

#[test]
fn kinds_are_held_to_the_grammar() {
    assert!(all_known(&vec![], 0));
    assert!(all_known(&vec![0, 4], 5));
    assert!(!all_known(&vec![0, 5], 5));
    assert!(Pattern::new(vec![1, 2]).is_known(3));
    assert!(!Pattern::new(vec![1, 3]).is_known(3));
    assert!(!Pattern::inside(vec![1], vec![3]).is_known(3));
    assert!(has_kind(&vec![1, 2], 2));
    assert!(!has_kind(&vec![1, 2], 3));
}

#[test]
fn index_gives_the_lists_of_a_kind_in_order() {
    let mut set = PatternSet::new(6);
    set.insert(&vec![1, 2]);
    set.insert(&vec![3]);
    set.insert(&vec![2, 2, 5]);
    set.insert(&vec![]);
    set.insert(&vec![5, 1]);
    assert_eq!(set.count, 5);
    assert_eq!(set.matching(0), &Vec::<usize>::new());
    assert_eq!(set.matching(1), &vec![0, 4]);
    assert_eq!(set.matching(2), &vec![0, 2]);
    assert_eq!(set.matching(3), &vec![1]);
    assert_eq!(set.matching(4), &Vec::<usize>::new());
    assert_eq!(set.matching(5), &vec![2, 4]);
}

#[test]
fn index_holds_nothing_for_an_unknown_kind() {
    let mut set = PatternSet::new(2);
    set.insert(&vec![0, 1]);
    assert_eq!(set.matching(2), &Vec::<usize>::new());
    assert_eq!(set.matching(u16::MAX), &Vec::<usize>::new());
}
