use pathgrid::priority_queue::priority_queue::PriorityQueue;
use pathgrid::priority_queue::priority_queue_item::PriorityQueueItem;

#[test]
fn priority_queue() {
    let mut queue: PriorityQueue<u32> = PriorityQueue::new();

    assert_eq!(queue.count(), 0);
    assert_eq!(queue.is_empty(), true);

    queue.enqueue(5, 1);
    queue.enqueue(8, 3);
    queue.enqueue(29, 2);

    assert_eq!(queue.count(), 3);
    assert_eq!(queue.is_empty(), false);

    assert_eq!(queue.dequeue(), Some(8));
    assert_eq!(queue.dequeue(), Some(29));
    assert_eq!(queue.dequeue(), Some(5));
    assert_eq!(queue.dequeue(), None);
}

#[test]
fn priority_queue_priority_queue() {
    let mut queue: PriorityQueue<u32> = PriorityQueue::new();

    assert_eq!(queue.count(), 0);

    queue.enqueue(5, 1);
    queue.enqueue(8, 3);
    queue.enqueue(29, 2);

    assert_eq!(queue.count(), 3);

    assert_eq!(queue.dequeue(), Some(8));
    assert_eq!(queue.dequeue(), Some(29));
    assert_eq!(queue.dequeue(), Some(5));
    assert_eq!(queue.dequeue(), None);
}

#[test]
fn priority_queue_item() {
    let item_1 = PriorityQueueItem {
        item: 5,
        priority: 10,
    };
    let item_2 = PriorityQueueItem {
        item: 10,
        priority: 5,
    };
    let item_3 = PriorityQueueItem {
        item: 10,
        priority: 10,
    };

    assert_eq!(item_1 > item_2, true);
    assert_eq!(item_1 == item_3, true);
}

#[test]
fn dequeue_hands_out_priorities_from_largest_to_smallest() {
    let mut queue: PriorityQueue<i32> = PriorityQueue::with_capacity(64);
    assert!(queue.is_empty());
    let mut seed: i64 = 12345;
    let mut expected: Vec<i32> = Vec::new();
    for _ in 0..200 {
        seed = (seed * 1103515245 + 12345) % 2147483648;
        let priority = (seed % 1000) as i32 - 500;
        queue.enqueue(priority, priority);
        expected.push(priority);
    }
    assert_eq!(queue.count(), 200);
    expected.sort();
    expected.reverse();
    let mut drained: Vec<i32> = Vec::new();
    while let Some(item) = queue.dequeue() {
        drained.push(item);
    }
    assert_eq!(drained, expected);
    assert_eq!(queue.count(), 0);
    assert_eq!(queue.dequeue(), None);
}

#[test]
fn entries_of_equal_priority_all_come_out() {
    let mut queue: PriorityQueue<u32> = PriorityQueue::new();
    queue.enqueue(1, 7);
    queue.enqueue(2, 7);
    queue.enqueue(3, 9);
    queue.enqueue(4, 7);
    assert_eq!(queue.dequeue(), Some(3));
    let mut rest = vec![
        queue.dequeue().unwrap(),
        queue.dequeue().unwrap(),
        queue.dequeue().unwrap(),
    ];
    rest.sort();
    assert_eq!(rest, vec![1, 2, 4]);
    assert!(queue.is_empty());
}

#[test]
fn negated_costs_make_the_smallest_cost_leave_first() {
    let mut queue: PriorityQueue<u32> = PriorityQueue::new();
    for cost in [5, 1, 4, 2, 3] {
        queue.enqueue(cost as u32, -cost);
    }
    let mut order: Vec<u32> = Vec::new();
    while let Some(item) = queue.dequeue() {
        order.push(item);
    }
    assert_eq!(order, vec![1, 2, 3, 4, 5]);
}

#[test]
fn items_compare_by_priority_alone() {
    let low = PriorityQueueItem { item: 99, priority: -3 };
    let high = PriorityQueueItem { item: 1, priority: 4 };
    let same = PriorityQueueItem { item: 42, priority: 4 };
    assert!(low < high);
    assert!(high > low);
    assert!(high >= same && high <= same);
    assert!(high == same);
    assert!(low != high);
}
