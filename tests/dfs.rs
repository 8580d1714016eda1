use std::collections::{BTreeSet, HashSet};

use fsm::dfs::{dfs, multi_dfs};
use fsm::item_set::ItemSet;

fn neighbors(state: u32) -> Vec<u32> {
    match state {
        0 => vec![1, 2],
        1 => vec![3],
        2 => vec![1, 4],
        3 => vec![5],
        4 => vec![1, 5],
        5 => vec![],
        _ => unreachable!(),
    }
}

#[test]
fn test_dfs() {
    let mut traversal = dfs(0, neighbors);
    assert_eq!(traversal.next(), Some(0));
    assert_eq!(traversal.next(), Some(2));
    assert_eq!(traversal.next(), Some(4));
    assert_eq!(traversal.next(), Some(5));
    assert_eq!(traversal.next(), Some(1));
    assert_eq!(traversal.next(), Some(3));
    assert_eq!(traversal.next(), None);
}

#[test]
fn dfs_test_dfs() {
    let neighbors = |state: u32| match state {
        0 => vec![1, 2],
        1 => vec![3],
        2 => vec![1, 4],
        3 => vec![5],
        4 => vec![1, 5],
        5 => vec![],
        _ => unreachable!(),
    };
    let mut traversal = dfs(0, neighbors);
    assert_eq!(traversal.next(), Some(0));
    assert_eq!(traversal.next(), Some(2));
    assert_eq!(traversal.next(), Some(4));
    assert_eq!(traversal.next(), Some(5));
    assert_eq!(traversal.next(), Some(1));
    assert_eq!(traversal.next(), Some(3));
    assert_eq!(traversal.next(), None);
}

#[test]
fn multi_dfs_starts_from_last_item_and_handles_cycles() {
    let cyclic = |state: usize| match state {
        0 => vec![1],
        1 => vec![0, 2],
        2 => vec![2],
        _ => vec![],
    };
    let mut traversal = multi_dfs(vec![2, 0], cyclic);
    assert_eq!(traversal.next(), Some(0));
    assert_eq!(traversal.next(), Some(1));
    assert_eq!(traversal.next(), Some(2));
    assert_eq!(traversal.next(), None);
    assert_eq!(traversal.next(), None);
}

#[test]
fn item_sets_report_new_members() {
    let mut h: HashSet<u32> = ItemSet::new();
    assert!(ItemSet::insert(&mut h, 3));
    assert!(!ItemSet::insert(&mut h, 3));
    assert!(ItemSet::contains(&h, &3));
    assert!(!ItemSet::contains(&h, &4));

    let mut b: BTreeSet<char> = ItemSet::new();
    assert!(ItemSet::insert(&mut b, 'q'));
    assert!(!ItemSet::insert(&mut b, 'q'));
    assert!(ItemSet::contains(&b, &'q'));
    assert!(!ItemSet::contains(&b, &'r'));
}
