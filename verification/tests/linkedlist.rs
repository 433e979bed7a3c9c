use linkedhashmap::linkedlist::{LinkedList, NodeSlab};

#[test]
fn test_linkedlist() {
    let mut slab = NodeSlab::new();
    let mut list = LinkedList::new();

    list.push(&mut slab, 0);
    assert_eq!(Some(0), list.pop_front(&mut slab));
    assert_eq!(None, list.pop_front(&mut slab));

    list.push(&mut slab, 1);
    assert_eq!(Some(1), list.pop_last(&mut slab));
    assert_eq!(None, list.pop_last(&mut slab));

    list.push(&mut slab, 2);
    list.push(&mut slab, 3);
    assert_eq!(Some(2), list.pop_front(&mut slab));
    assert_eq!(Some(3), list.pop_last(&mut slab));
    assert_eq!(None, list.pop_front(&mut slab));
    assert_eq!(None, list.pop_last(&mut slab));

    list.push(&mut slab, 4);
    list.push(&mut slab, 5);
    assert_eq!(Some(5), list.pop_last(&mut slab));
    assert_eq!(Some(4), list.pop_front(&mut slab));
    assert_eq!(None, list.pop_last(&mut slab));
    assert_eq!(None, list.pop_front(&mut slab));

    let index6 = list.push(&mut slab, 6);
    let index7 = list.push(&mut slab, 7);
    let index8 = list.push(&mut slab, 8);
    assert_eq!(Some(7), list.remove(&mut slab, index7));
    assert_eq!(None, list.remove(&mut slab, index7));
    assert_eq!(Some(&6), slab.get(index6));
    assert_eq!(Some(&8), slab.get(index8));
    assert_eq!(Some(6), list.pop_front(&mut slab));
    assert_eq!(Some(8), list.pop_front(&mut slab));

    let index9 = list.push(&mut slab, 9);
    list.push(&mut slab, 10);
    assert_eq!(Some(&mut 9), list.touch(&mut slab, index9));
    assert_eq!(Some(10), list.pop_front(&mut slab));
    assert_eq!(Some(9), list.pop_front(&mut slab));

    let index11 = list.push(&mut slab, 11);
    let index12 = list.push(&mut slab, 12);
    list.push(&mut slab, 13);
    assert_eq!(Some(&mut 12), list.touch(&mut slab, index12));
    assert_eq!(Some(&mut 11), list.touch(&mut slab, index11));
    assert_eq!(Some(13), list.pop_front(&mut slab));
    assert_eq!(Some(12), list.pop_front(&mut slab));
    assert_eq!(Some(11), list.pop_front(&mut slab));

    for i in 0..32 {
        list.push(&mut slab, i);
    }
    for i in 0..32 {
        assert_eq!(Some(i), list.pop_front(&mut slab));
    }
    assert_eq!(None, list.pop_front(&mut slab));

    for i in 0..32 {
        list.push(&mut slab, i);
    }
    for i in (0..32).rev() {
        assert_eq!(Some(i), list.pop_last(&mut slab));
    }
    assert_eq!(None, list.pop_last(&mut slab));
}

#[test]
fn test_slab_stale_index_is_not_found() {
    let mut slab = NodeSlab::new();
    let mut list = LinkedList::new();

    let index = list.push(&mut slab, 41);
    assert_eq!(Some(&41), slab.get(index));
    assert_eq!(Some(41), list.remove(&mut slab, index));
    // The index is stale now: every defensive lookup reports "not found".
    assert_eq!(None, slab.get(index));
    assert_eq!(None, slab.get_mut(index));
    assert_eq!(None, list.touch(&mut slab, index));
    assert_eq!(None, list.remove(&mut slab, index));
}

#[test]
fn test_slab_reuses_freed_slots() {
    let mut slab = NodeSlab::new();
    let mut list = LinkedList::new();

    let first = list.push(&mut slab, 1);
    let second = list.push(&mut slab, 2);
    assert_eq!(Some(1), list.remove(&mut slab, first));
    // The freed slot is handed out again before the storage grows.
    let third = list.push(&mut slab, 3);
    assert_eq!(first, third);
    assert_eq!(Some(2), list.pop_front(&mut slab));
    assert_eq!(Some(3), list.pop_front(&mut slab));
    let _ = second;
}

#[test]
fn test_slab_get_mut_rewrites_in_place() {
    let mut slab = NodeSlab::new();
    let mut list = LinkedList::new();

    let index = list.push(&mut slab, 10);
    list.push(&mut slab, 20);
    if let Some(v) = slab.get_mut(index) {
        *v = 15;
    } else {
        panic!("slot unexpectedly free");
    }
    // Rewriting the value must not reorder the list.
    assert_eq!(Some(15), list.pop_front(&mut slab));
    assert_eq!(Some(20), list.pop_front(&mut slab));
}

#[test]
fn test_touch_sole_element_is_noop() {
    let mut slab = NodeSlab::new();
    let mut list = LinkedList::new();

    let index = list.push(&mut slab, 77);
    // Touching the only node returns its value unchanged and relinks nothing.
    assert_eq!(Some(&mut 77), list.touch(&mut slab, index));
    assert_eq!(Some(&77), slab.get(index));
    assert_eq!(Some(77), list.pop_last(&mut slab));
    assert_eq!(None, list.pop_front(&mut slab));
}

#[test]
fn test_remove_head_then_tail_keeps_list_consistent() {
    let mut slab = NodeSlab::new();
    let mut list = LinkedList::new();

    let a = list.push(&mut slab, 100);
    let b = list.push(&mut slab, 200);
    let c = list.push(&mut slab, 300);
    assert_eq!(Some(100), list.remove(&mut slab, a));
    assert_eq!(Some(300), list.remove(&mut slab, c));
    assert_eq!(Some(&mut 200), list.touch(&mut slab, b));
    assert_eq!(Some(200), list.pop_last(&mut slab));
    assert_eq!(None, list.pop_last(&mut slab));
}
