//! Behaviour of the queue ledger: append, removals everywhere, value
//! updates, snapshots and the consistency of the linked structure.
use liquid_queue::error::ContractError;
use liquid_queue::linked_list::{
    linked_list_append, linked_list_clear, linked_list_get_list, linked_list_read,
    linked_list_remove, linked_list_remove_head, linked_list_remove_tail, node_read,
    node_update_value, QueueStorage,
};

fn push(q: &mut QueueStorage, owner: &str, value: u128) -> u64 {
    linked_list_append(q, owner.to_string(), value, 7).unwrap()
}

#[test]
fn append_assigns_sequential_ids() {
    let mut q = QueueStorage::new();
    assert_eq!(push(&mut q, "a", 10), 1);
    assert_eq!(push(&mut q, "b", 5), 2);
    assert_eq!(push(&mut q, "c", 20), 3);
    let root = linked_list_read(&q);
    assert_eq!(root.head_id, 1);
    assert_eq!(root.tail_id, 3);
    assert_eq!(root.length, 3);
}

#[test]
fn append_after_head_removal_keeps_ids_fresh() {
    let mut q = QueueStorage::new();
    push(&mut q, "a", 1);
    push(&mut q, "b", 2);
    linked_list_remove_head(&mut q).unwrap();
    // the next id is strictly greater than every id ever handed out so far
    assert_eq!(push(&mut q, "c", 3), 3);
    let list = linked_list_get_list(&q, 50).unwrap();
    assert_eq!(list.len(), 2);
    assert_eq!(list[0].id, 2);
    assert_eq!(list[1].id, 3);
}

#[test]
fn remove_head_relinks_second_node() {
    let mut q = QueueStorage::new();
    push(&mut q, "a", 10);
    push(&mut q, "b", 5);
    push(&mut q, "c", 20);
    linked_list_remove_head(&mut q).unwrap();
    let root = linked_list_read(&q);
    assert_eq!(root.head_id, 2);
    assert_eq!(root.tail_id, 3);
    assert_eq!(root.length, 2);
    let head = node_read(&q, 2).unwrap();
    assert_eq!(head.prev, 0);
    assert_eq!(head.next, 3);
}

#[test]
fn remove_tail_relinks_previous_node() {
    let mut q = QueueStorage::new();
    push(&mut q, "a", 10);
    push(&mut q, "b", 5);
    push(&mut q, "c", 20);
    linked_list_remove_tail(&mut q).unwrap();
    let root = linked_list_read(&q);
    assert_eq!(root.head_id, 1);
    assert_eq!(root.tail_id, 2);
    assert_eq!(root.length, 2);
    let tail = node_read(&q, 2).unwrap();
    assert_eq!(tail.next, 0);
    assert_eq!(tail.prev, 1);
}

#[test]
fn remove_middle_splices_neighbours() {
    let mut q = QueueStorage::new();
    push(&mut q, "a", 10);
    push(&mut q, "b", 5);
    push(&mut q, "c", 20);
    linked_list_remove(&mut q, 2).unwrap();
    let root = linked_list_read(&q);
    assert_eq!(root.length, 2);
    let first = node_read(&q, 1).unwrap();
    let last = node_read(&q, 3).unwrap();
    assert_eq!(first.next, 3);
    assert_eq!(last.prev, 1);
    assert!(matches!(node_read(&q, 2), Err(ContractError::NotFound)));
}

#[test]
fn remove_absent_id_is_not_found() {
    let mut q = QueueStorage::new();
    push(&mut q, "a", 10);
    assert!(matches!(
        linked_list_remove(&mut q, 9),
        Err(ContractError::NotFound)
    ));
    assert_eq!(linked_list_read(&q).length, 1);
}

#[test]
fn remove_head_of_empty_queue_is_not_found() {
    let mut q = QueueStorage::new();
    assert!(matches!(
        linked_list_remove_head(&mut q),
        Err(ContractError::NotFound)
    ));
    assert!(matches!(
        linked_list_remove_tail(&mut q),
        Err(ContractError::NotFound)
    ));
}

#[test]
fn update_value_leaves_linkage_alone() {
    let mut q = QueueStorage::new();
    push(&mut q, "a", 10);
    push(&mut q, "b", 5);
    node_update_value(&mut q, 1, 4).unwrap();
    let node = node_read(&q, 1).unwrap();
    assert_eq!(node.value, 4);
    assert_eq!(node.next, 2);
    assert!(matches!(
        node_update_value(&mut q, 5, 1),
        Err(ContractError::NotFound)
    ));
}

#[test]
fn snapshot_is_bounded_and_in_order() {
    let mut q = QueueStorage::new();
    for i in 0..5u128 {
        push(&mut q, "a", i);
    }
    let list = linked_list_get_list(&q, 3).unwrap();
    assert_eq!(list.len(), 3);
    assert_eq!(list[0].id, 1);
    assert_eq!(list[1].id, 2);
    assert_eq!(list[2].id, 3);
    let all = linked_list_get_list(&q, 50).unwrap();
    assert_eq!(all.len(), 5);
}

#[test]
fn clear_resets_to_the_empty_state() {
    let mut q = QueueStorage::new();
    push(&mut q, "a", 10);
    push(&mut q, "b", 5);
    linked_list_clear(&mut q).unwrap();
    let root = linked_list_read(&q);
    assert_eq!((root.head_id, root.tail_id, root.length), (0, 0, 0));
    assert!(matches!(node_read(&q, 1), Err(ContractError::NotFound)));
    // the queue is usable again afterwards
    assert_eq!(push(&mut q, "c", 1), 1);
}

#[test]
fn forward_and_backward_walks_visit_every_node() {
    let mut q = QueueStorage::new();
    push(&mut q, "a", 10);
    push(&mut q, "b", 5);
    push(&mut q, "c", 20);
    linked_list_remove(&mut q, 2).unwrap();
    push(&mut q, "d", 2);
    let root = linked_list_read(&q);
    // walk forward from the head
    let mut visited: Vec<u64> = Vec::new();
    let mut cur = root.head_id;
    while cur != 0 {
        let node = node_read(&q, cur).unwrap();
        visited.push(cur);
        cur = node.next;
    }
    assert_eq!(visited.len() as u64, root.length);
    assert_eq!(*visited.last().unwrap(), root.tail_id);
    // walk backward from the tail
    let mut back: Vec<u64> = Vec::new();
    let mut cur = root.tail_id;
    while cur != 0 {
        let node = node_read(&q, cur).unwrap();
        back.push(cur);
        cur = node.prev;
    }
    back.reverse();
    assert_eq!(visited, back);
}

#[test]
fn live_ids_stay_unique_and_increasing() {
    let mut q = QueueStorage::new();
    push(&mut q, "a", 1);
    push(&mut q, "b", 2);
    push(&mut q, "c", 3);
    linked_list_remove(&mut q, 2).unwrap();
    linked_list_remove_head(&mut q).unwrap();
    push(&mut q, "d", 4);
    let list = linked_list_get_list(&q, 50).unwrap();
    for w in list.windows(2) {
        assert!(w[0].id < w[1].id);
    }
}
