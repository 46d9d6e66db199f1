use spreadsheet::list::{erase_list, push_front, ListMemPool};

#[test]
fn test_new_pool() {
    let pool = ListMemPool::new();
    assert!(pool.blocks.is_empty(), "Expected blocks to be None");
    assert!(pool.free_list.is_none(), "Expected free_list to be None");
}

#[test]
fn test_add_block_and_alloc() {
    let mut pool = ListMemPool::new();
    let node_opt = pool.alloc_node();
    assert!(node_opt.is_some(), "alloc() should return a Some(node)");
    let node = node_opt.unwrap();
    assert_eq!(pool.nodes[node].data, 0);
}

#[test]
fn test_free_method() {
    let mut pool = ListMemPool::new();
    let node1 = pool.alloc_node().unwrap();
    pool.nodes[node1].data = 123;
    pool.free(node1);
    let free_node = pool.free_list.unwrap();
    assert_eq!(pool.nodes[free_node].data, 123);
}

#[test]
fn test_destroy() {
    let mut pool = ListMemPool::new();
    pool.add_block();
    assert!(!pool.blocks.is_empty());
    assert!(pool.free_list.is_some());
    pool.destroy();
    assert!(pool.blocks.is_empty());
    assert!(pool.free_list.is_none());
}

#[test]
fn test_push_front() {
    let mut pool = ListMemPool::new();
    let mut head: Option<usize> = None;
    push_front(&mut head, 10, &mut pool);
    assert!(head.is_some());
    assert_eq!(pool.nodes[head.unwrap()].data, 10);

    push_front(&mut head, 20, &mut pool);
    assert!(head.is_some());
    assert_eq!(pool.nodes[head.unwrap()].data, 20);
    let second = pool.nodes[head.unwrap()].next;
    assert!(second.is_some());
    assert_eq!(pool.nodes[second.unwrap()].data, 10);
}

#[test]
fn test_erase_list_empty() {
    let mut pool = ListMemPool::new();
    let mut head: Option<usize> = None;
    let result = erase_list(&mut head, 10, &mut pool);
    assert!(!result, "Erasing from an empty list should return false");
}

#[test]
fn test_erase_list_head() {
    let mut pool = ListMemPool::new();
    let mut head: Option<usize> = None;
    push_front(&mut head, 10, &mut pool);
    push_front(&mut head, 20, &mut pool);
    push_front(&mut head, 30, &mut pool);
    let erased = erase_list(&mut head, 30, &mut pool);
    assert!(erased, "Erasing the head value should succeed");
    assert!(head.is_some());
    assert_eq!(pool.nodes[head.unwrap()].data, 20);
}

#[test]
fn test_erase_list_middle() {
    let mut pool = ListMemPool::new();
    let mut head: Option<usize> = None;
    push_front(&mut head, 10, &mut pool);
    push_front(&mut head, 20, &mut pool);
    push_front(&mut head, 30, &mut pool);
    let erased = erase_list(&mut head, 20, &mut pool);
    assert!(erased, "Erasing a middle node should succeed");
    let first = head.unwrap();
    let first_val = pool.nodes[first].data;
    let second_val = pool.nodes[pool.nodes[first].next.unwrap()].data;
    assert_eq!(first_val, 30);
    assert_eq!(second_val, 10);
}

#[test]
fn test_erase_list_not_found() {
    let mut pool = ListMemPool::new();
    let mut head: Option<usize> = None;
    push_front(&mut head, 5, &mut pool);
    push_front(&mut head, 15, &mut pool);
    let erased = erase_list(&mut head, 99, &mut pool);
    assert!(!erased, "Erasing a non-existent value should return false");
}

#[test]
fn test_freed_node_is_reused() {
    let mut pool = ListMemPool::new();
    let mut head: Option<usize> = None;
    push_front(&mut head, 1, &mut pool);
    let first = head.unwrap();
    assert!(erase_list(&mut head, 1, &mut pool));
    assert!(head.is_none());
    push_front(&mut head, 2, &mut pool);
    assert_eq!(head, Some(first));
    assert_eq!(pool.nodes.len(), 1024);
}
