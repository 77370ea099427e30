use vertex_puzzle::edge::{canonical_edge, EdgeSet};

#[test]
fn canonical_edge_puts_the_smaller_index_first() {
    assert_eq!(canonical_edge(&(3, 1)), (1, 3));
    assert_eq!(canonical_edge(&(1, 3)), (1, 3));
    assert_eq!(canonical_edge(&(2, 2)), (2, 2));
    assert_eq!(canonical_edge(&(u32::MAX, 0)), (0, u32::MAX));
}

#[test]
fn an_edge_set_keeps_each_edge_once_in_order() {
    let mut set = EdgeSet::new();
    assert_eq!(set.len(), 0);
    assert!(set.insert((0, 1)));
    assert!(set.insert((1, 2)));
    assert!(!set.insert((0, 1)));
    assert!(set.insert((0, 2)));
    assert_eq!(set.len(), 3);
    assert_eq!(set.to_vec(), vec![(0, 1), (1, 2), (0, 2)]);
    assert!(set.contains(&(1, 2)));
    assert!(!set.contains(&(2, 1)));
    assert_eq!(set.position(&(0, 2)), Some(2));
    assert_eq!(set.position(&(5, 6)), None);
    assert_eq!(set.get(1), (1, 2));
    assert!(set.remove(&(0, 1)));
    assert!(!set.remove(&(0, 1)));
    assert_eq!(set.to_vec(), vec![(1, 2), (0, 2)]);
    assert!(set.insert((0, 1)));
    assert_eq!(set.to_vec(), vec![(1, 2), (0, 2), (0, 1)]);
}
