use hnsw_index::memtable::{MemTable, StoreError};
use hnsw_index::node::Node;
use hnsw_index::vector::Vector;

#[test]
fn new_store_is_empty() {
    let store = MemTable::new();
    assert_eq!(store.len(), 0);
    assert!(store.get(0).is_none());
}

#[test]
fn insert_hands_out_identifiers_in_order() {
    let mut store = MemTable::new();
    assert_eq!(store.insert(Vector::new(vec![1, 2]), 0), 0);
    assert_eq!(store.insert(Vector::new(vec![3, 4]), 2), 1);
    assert_eq!(store.insert(Vector::new(vec![5, 6]), 1), 2);
    assert_eq!(store.len(), 3);
    assert!(store.get(3).is_none());
}

#[test]
fn insert_makes_an_empty_list_for_each_layer() {
    let mut store = MemTable::new();
    let id = store.insert(Vector::new(vec![7, 8, 9]), 2);
    let node = store.get(id).unwrap();
    assert_eq!(node.id(), id);
    assert_eq!(node.vector(), &Vector::new(vec![7, 8, 9]));
    assert_eq!(node.layer_count(), 3);
    assert_eq!(node.neighbor_ids(0), Some(&vec![]));
    assert_eq!(node.neighbor_ids(1), Some(&vec![]));
    assert_eq!(node.neighbor_ids(2), Some(&vec![]));
    assert_eq!(node.neighbor_ids(3), None);
}

#[test]
fn update_replaces_one_list() {
    let mut store = MemTable::new();
    let a = store.insert(Vector::new(vec![0]), 1);
    let b = store.insert(Vector::new(vec![1]), 1);
    let c = store.insert(Vector::new(vec![2]), 1);
    assert_eq!(store.update_neighbors(a, 0, vec![b, c]), Ok(()));
    assert_eq!(store.update_neighbors(a, 1, vec![c]), Ok(()));
    assert_eq!(store.update_neighbors(a, 0, vec![c]), Ok(()));
    let node = store.get(a).unwrap();
    assert_eq!(node.neighbor_ids(0), Some(&vec![c]));
    assert_eq!(node.neighbor_ids(1), Some(&vec![c]));
    assert_eq!(store.get(b).unwrap().neighbor_ids(0), Some(&vec![]));
    assert_eq!(node.vector(), &Vector::new(vec![0]));
}

#[test]
fn append_adds_at_the_end() {
    let mut store = MemTable::new();
    let a = store.insert(Vector::new(vec![0]), 1);
    let b = store.insert(Vector::new(vec![1]), 1);
    let c = store.insert(Vector::new(vec![2]), 1);
    assert_eq!(store.append_neighbor(a, 1, c), Ok(()));
    assert_eq!(store.append_neighbor(a, 1, b), Ok(()));
    assert_eq!(store.append_neighbor(a, 0, b), Ok(()));
    let node = store.get(a).unwrap();
    assert_eq!(node.neighbor_ids(0), Some(&vec![b]));
    assert_eq!(node.neighbor_ids(1), Some(&vec![c, b]));
}

#[test]
fn unknown_identifier_is_not_found() {
    let mut store = MemTable::new();
    let a = store.insert(Vector::new(vec![0]), 0);
    assert_eq!(store.update_neighbors(a + 1, 0, vec![a]), Err(StoreError::NotFound));
    assert_eq!(store.append_neighbor(9, 0, a), Err(StoreError::NotFound));
    assert!(store.get(a + 1).is_none());
    assert_eq!(store.len(), 1);
    assert_eq!(store.get(a).unwrap().neighbor_ids(0), Some(&vec![]));
}

#[test]
fn snapshot_does_not_follow_later_changes() {
    let mut store = MemTable::new();
    let a = store.insert(Vector::new(vec![0]), 0);
    let b = store.insert(Vector::new(vec![1]), 0);
    let before = store.get(a).unwrap();
    assert_eq!(store.append_neighbor(a, 0, b), Ok(()));
    assert_eq!(before.neighbor_ids(0), Some(&vec![]));
    assert_eq!(store.get(a).unwrap().neighbor_ids(0), Some(&vec![b]));
}

#[test]
fn node_starts_without_layers() {
    let node = Node::new(4, Vector::new(vec![1, 1]));
    assert_eq!(node.id(), 4);
    assert_eq!(node.layer_count(), 0);
    assert_eq!(node.neighbor_ids(0), None);
    assert_eq!(node.vector().data(), &vec![1, 1]);
}

#[test]
fn node_lists_grow_up_to_the_layer_written() {
    let mut node = Node::new(0, Vector::new(vec![]));
    node.add_neighbor(2, 7);
    assert_eq!(node.layer_count(), 3);
    assert_eq!(node.neighbor_ids(0), Some(&vec![]));
    assert_eq!(node.neighbor_ids(1), Some(&vec![]));
    assert_eq!(node.neighbor_ids(2), Some(&vec![7]));
    node.add_neighbor(2, 9);
    node.add_neighbor(0, 5);
    assert_eq!(node.neighbor_ids(2), Some(&vec![7, 9]));
    assert_eq!(node.neighbor_ids(0), Some(&vec![5]));
    node.set_neighbor_ids(1, vec![3, 4]);
    node.set_neighbor_ids(2, vec![]);
    assert_eq!(node.neighbor_ids(1), Some(&vec![3, 4]));
    assert_eq!(node.neighbor_ids(2), Some(&vec![]));
    assert_eq!(node.layer_count(), 3);
    let copy = node.clone();
    assert_eq!(copy.neighbor_ids(1), Some(&vec![3, 4]));
    assert_eq!(copy.id(), 0);
    assert_eq!(copy.into_vector(), Vector::new(vec![]));
}
