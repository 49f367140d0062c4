use geo_kdtree::priority_queue::{MinPriorityQueue, PrioritySortableItem};

#[test]
fn test4() {
    let mut heap = MinPriorityQueue::new(40, u128::MAX);
    for i in 0..20u128 {
        heap.append(i as usize, 10 + i);
        heap.append(i as usize, 10 + i);
    }
    assert_eq!(heap.get_min_priority(), 10);
    assert_eq!(heap.get_max_priority(), Some(29));
    let v = heap.get_min_value();
    assert_eq!(v.len(), 40);
    for (j, it) in v.iter().enumerate() {
        assert_eq!(it.priority, 10 + (j as u128) / 2);
        assert_eq!(it.element, j / 2);
    }
}

#[test]
fn keeps_the_smallest() {
    let mut q = MinPriorityQueue::new(3, 1000);
    assert_eq!(q.get_max_priority(), None);
    q.append(0, 50);
    q.append(1, 20);
    assert_eq!(q.get_max_priority(), None);
    q.append(2, 40);
    assert_eq!(q.get_max_priority(), Some(50));
    q.append(3, 10);
    assert_eq!(q.get_max_priority(), Some(40));
    q.append(4, 40);
    assert_eq!(q.get_max_priority(), Some(40));
    q.append(5, 60);
    assert_eq!(q.get_min_priority(), 10);
    let v: Vec<(usize, u128)> = q.get_min_value().iter().map(|it| (it.element, it.priority)).collect();
    assert_eq!(v, vec![(3, 10), (1, 20), (2, 40)]);
}

#[test]
fn equal_priorities_keep_order_of_arrival() {
    let mut q = MinPriorityQueue::new(4, 0);
    q.append(7, 5);
    q.append(8, 5);
    q.append(9, 3);
    let v: Vec<usize> = q.get_min_value().iter().map(|it| it.element).collect();
    assert_eq!(v, vec![9, 7, 8]);
}

#[test]
fn zero_capacity_keeps_nothing() {
    let mut q = MinPriorityQueue::new(0, 9);
    q.append(1, 3);
    assert_eq!(q.get_max_priority(), None);
    assert_eq!(q.get_min_priority(), 3);
    assert!(q.get_min_value().is_empty());
}

#[test]
fn item_holds_its_fields() {
    let it = PrioritySortableItem::new(12, 345);
    assert_eq!(it.element, 12);
    assert_eq!(it.priority, 345);
}
