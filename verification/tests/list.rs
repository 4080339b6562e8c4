use lib::list::{
    list_add, list_add_tail, list_del, list_empty, list_first_entry, list_for_each, list_init, list_len, ListNode,
};

fn memory(n: usize) -> Vec<ListNode> {
    (0..n).map(|i| ListNode { prev: i, next: i }).collect()
}

fn order(nodes: &Vec<ListNode>, head: usize) -> Vec<usize> {
    list_for_each(nodes, head, |i| i)
}

#[test]
fn init_gives_an_empty_list() {
    let mut nodes = vec![ListNode { prev: 3, next: 4 }; 5];
    list_init(&mut nodes, 2);
    assert_eq!(nodes[2], ListNode { prev: 2, next: 2 });
    assert_eq!(nodes[0], ListNode { prev: 3, next: 4 });
    assert!(list_empty(&nodes, 2));
    assert_eq!(list_len(&nodes, 2), 0);
    assert_eq!(list_first_entry(&nodes, 2), None);
    assert_eq!(order(&nodes, 2), Vec::<usize>::new());
}

#[test]
fn add_inserts_at_the_front() {
    let mut nodes = memory(5);
    list_init(&mut nodes, 0);
    list_add(&mut nodes, 0, 1);
    list_add(&mut nodes, 0, 2);
    assert_eq!(order(&nodes, 0), vec![2, 1]);
    assert_eq!(nodes[0], ListNode { prev: 1, next: 2 });
    assert_eq!(nodes[2], ListNode { prev: 0, next: 1 });
    assert_eq!(nodes[1], ListNode { prev: 2, next: 0 });
    assert_eq!(list_first_entry(&nodes, 0), Some(2));
    assert!(!list_empty(&nodes, 0));
}

#[test]
fn add_tail_inserts_at_the_back() {
    let mut nodes = memory(5);
    list_init(&mut nodes, 0);
    list_add_tail(&mut nodes, 0, 1);
    list_add_tail(&mut nodes, 0, 2);
    list_add(&mut nodes, 0, 3);
    assert_eq!(order(&nodes, 0), vec![3, 1, 2]);
    assert_eq!(list_len(&nodes, 0), 3);
    assert_eq!(list_first_entry(&nodes, 0), Some(3));
    assert_eq!(nodes[0].prev, 2);
}

#[test]
fn del_unlinks_and_detaches() {
    let mut nodes = memory(5);
    list_init(&mut nodes, 0);
    for i in 1..5 {
        list_add_tail(&mut nodes, 0, i);
    }
    list_del(&mut nodes, 2);
    assert_eq!(order(&nodes, 0), vec![1, 3, 4]);
    assert_eq!(nodes[2], ListNode { prev: 2, next: 2 });
    list_del(&mut nodes, 1);
    list_del(&mut nodes, 4);
    assert_eq!(order(&nodes, 0), vec![3]);
    assert_eq!(nodes[0], ListNode { prev: 3, next: 3 });
    list_del(&mut nodes, 3);
    assert!(list_empty(&nodes, 0));
    assert_eq!(list_len(&nodes, 0), 0);
}

#[test]
fn del_of_a_detached_node_changes_nothing() {
    let mut nodes = memory(4);
    list_init(&mut nodes, 0);
    list_add(&mut nodes, 0, 1);
    list_del(&mut nodes, 1);
    let before = nodes.clone();
    list_del(&mut nodes, 1);
    assert_eq!(nodes, before);
}

#[test]
fn add_then_del_restores_memory() {
    let mut nodes = memory(6);
    list_init(&mut nodes, 0);
    list_add_tail(&mut nodes, 0, 1);
    list_add_tail(&mut nodes, 0, 2);
    let before = nodes.clone();
    list_add(&mut nodes, 0, 5);
    list_del(&mut nodes, 5);
    assert_eq!(nodes, before);
    list_add_tail(&mut nodes, 0, 5);
    list_del(&mut nodes, 5);
    assert_eq!(nodes, before);
}

#[test]
fn lengths_change_by_one() {
    let mut nodes = memory(8);
    list_init(&mut nodes, 0);
    for i in 1..8 {
        list_add(&mut nodes, 0, i);
        assert_eq!(list_len(&nodes, 0), i);
    }
    for i in 1..8 {
        list_del(&mut nodes, i);
        assert_eq!(list_len(&nodes, 0), 7 - i);
    }
}

#[test]
fn lists_sharing_memory_do_not_interfere() {
    let mut nodes = memory(8);
    list_init(&mut nodes, 0);
    list_init(&mut nodes, 4);
    list_add_tail(&mut nodes, 0, 1);
    list_add_tail(&mut nodes, 0, 2);
    list_add_tail(&mut nodes, 4, 5);
    list_add_tail(&mut nodes, 4, 6);
    list_add(&mut nodes, 0, 3);
    list_del(&mut nodes, 5);
    list_add_tail(&mut nodes, 4, 7);
    assert_eq!(order(&nodes, 0), vec![3, 1, 2]);
    assert_eq!(order(&nodes, 4), vec![6, 7]);
}

#[test]
fn for_each_calls_back_in_order() {
    let mut nodes = memory(4);
    list_init(&mut nodes, 0);
    list_add_tail(&mut nodes, 0, 3);
    list_add_tail(&mut nodes, 0, 1);
    list_add_tail(&mut nodes, 0, 2);
    let doubled = list_for_each(&nodes, 0, |i| i * 10);
    assert_eq!(doubled, vec![30, 10, 20]);
}
