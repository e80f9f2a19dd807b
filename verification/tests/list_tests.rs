use rtkit::list::{List, Ptr, Ref};

fn ready_list() -> List<u32> {
    let mut l: List<u32> = List::new();
    l.init();
    l
}

#[test]
fn uninitialised_list_is_empty() {
    let l: List<u32> = List::new();
    assert!(l.is_empty());
    assert_eq!(l.peek_head_node(), None);
    assert!(l.head().is_none());
    assert!(l.tail().is_none());
}

#[test]
fn enqueue_dequeue_is_fifo() {
    let mut l = ready_list();
    l.enqueue(Ref::new(0, 1));
    l.enqueue(Ref::new(1, 2));
    l.enqueue(Ref::new(2, 3));
    l.enqueue(Ref::new(3, 4));
    assert!(!l.is_empty());
    let mut seen = Vec::new();
    while let Some(r) = l.dequeue() {
        seen.push((r.id, r.obj));
    }
    assert_eq!(seen, vec![(0, 1), (1, 2), (2, 3), (3, 4)]);
    assert!(l.is_empty());
}

#[test]
fn head_and_tail() {
    let mut l = ready_list();
    l.append(Ref::new(7, 70));
    l.append(Ref::new(3, 30));
    assert_eq!(l.head(), Some(&70));
    assert_eq!(l.tail(), Some(&30));
    assert_eq!(l.peek_head_node(), Some(7));
}

#[test]
fn unlink_from_the_middle() {
    let mut l = ready_list();
    for i in 0..5usize {
        l.enqueue(Ref::new(i, i as u32 * 10));
    }
    let r = l.unlink(2).unwrap();
    assert_eq!((r.id, r.obj), (2, 20));
    assert!(l.unlink(2).is_none());
    assert!(l.remove(9).is_none());
    let mut ids = Vec::new();
    while let Some(r) = l.dequeue() {
        ids.push(r.id);
    }
    assert_eq!(ids, vec![0, 1, 3, 4]);
}

#[test]
fn unlink_only_element_leaves_empty_ring() {
    let mut l = ready_list();
    l.enqueue(Ref::new(4, 1));
    assert!(l.remove(4).is_some());
    assert!(l.is_empty());
    l.enqueue(Ref::new(4, 2));
    assert_eq!(l.head(), Some(&2));
}

#[test]
fn insert_head_after_root_and_after_item() {
    let mut l = ready_list();
    l.insert_head(Ptr::Root, Ref::new(1, 10));
    l.insert_head(Ptr::Root, Ref::new(2, 20));
    l.insert_head(Ptr::Item(2), Ref::new(3, 30));
    let mut ids = Vec::new();
    while let Some(r) = l.dequeue() {
        ids.push(r.id);
    }
    assert_eq!(ids, vec![2, 3, 1]);
}

#[test]
fn filter_removes_matching_in_order() {
    let mut l = ready_list();
    for i in 0..6usize {
        l.append(Ref::new(i, i as u32));
    }
    let removed = l.filter(|x: &u32| *x % 2 == 1);
    let removed_ids: Vec<usize> = removed.iter().map(|r| r.id).collect();
    assert_eq!(removed_ids, vec![1, 3, 5]);
    let mut kept = Vec::new();
    while let Some(r) = l.dequeue() {
        kept.push(r.obj);
    }
    assert_eq!(kept, vec![0, 2, 4]);
}

#[test]
fn filter_that_keeps_everything_is_a_traversal() {
    let mut l = ready_list();
    for i in 0..3usize {
        l.append(Ref::new(i, i as u32 + 1));
    }
    let removed = l.filter(|_x: &u32| false);
    assert!(removed.is_empty());
    assert_eq!(l.head(), Some(&1));
    assert_eq!(l.tail(), Some(&3));
}

#[test]
fn insert_after_first_match() {
    // Items 1..=4, then insert 5 after the item holding 2.
    let mut l = ready_list();
    for i in 0..4usize {
        l.append(Ref::new(i, i as u32 + 1));
    }
    let rest = l.insert(Ref::new(4, 5), |x: &u32| if *x == 2 { Some(false) } else { None });
    assert!(rest.is_none());
    let mut vals = Vec::new();
    while let Some(r) = l.dequeue() {
        vals.push(r.obj);
    }
    assert_eq!(vals, vec![1, 2, 5, 3, 4]);
}

#[test]
fn insert_before_first_match() {
    let mut l = ready_list();
    for i in 0..3usize {
        l.append(Ref::new(i, i as u32 + 1));
    }
    let rest = l.insert(Ref::new(9, 9), |x: &u32| if *x >= 2 { Some(true) } else { None });
    assert!(rest.is_none());
    let mut vals = Vec::new();
    while let Some(r) = l.dequeue() {
        vals.push(r.obj);
    }
    assert_eq!(vals, vec![1, 9, 2, 3]);
}

#[test]
fn insert_without_match_hands_back() {
    let mut l = ready_list();
    l.append(Ref::new(0, 1));
    let rest = l.insert(Ref::new(1, 7), |_x: &u32| None);
    let r = rest.unwrap();
    assert_eq!((r.id, r.obj), (1, 7));
    assert_eq!(l.tail(), Some(&1));
}

#[test]
fn ref_release_gives_object_back() {
    let r = Ref::new(5, String::from("x"));
    assert_eq!(r.id, 5);
    assert_eq!(r.release(), "x");
}

#[test]
fn remove_undoes_insert_head() {
    let mut l = ready_list();
    for i in 0..3usize {
        l.append(Ref::new(i, i as u32));
    }
    l.insert_head(Ptr::Item(1), Ref::new(8, 80));
    let r = l.remove(8).unwrap();
    assert_eq!((r.id, r.obj), (8, 80));
    let mut ids = Vec::new();
    while let Some(r) = l.dequeue() {
        ids.push(r.id);
    }
    assert_eq!(ids, vec![0, 1, 2]);
}
