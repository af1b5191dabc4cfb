use multi_thread::Queue;

struct Stu {
    age: u8,
    name: String,
}

#[test]
fn single_thread() {
    let mut queue = Queue::new();
    let enqueue_nums = 500;
    for index in 0..enqueue_nums {
        let age = (index % 255) as u8;
        queue.enqueue(Stu {
            age,
            name: age.to_string() + "stu",
        });
    }
    let remains = queue.size();
    assert_eq!(remains, 500);
    let dequeue_nums = 400;
    for _ in 0..dequeue_nums {
        queue.dequeue();
    }
    let remains = queue.size();
    assert_eq!(remains, 100);
    let first = queue.dequeue().unwrap();
    assert_eq!(first.age, (400 % 255) as u8);
    assert_eq!(first.name, "145stu");
}

#[test]
fn queue_fifo_order() {
    let mut q = Queue::new();
    assert!(q.is_empty());
    q.enqueue(1);
    q.enqueue(2);
    q.enqueue(3);
    assert!(!q.is_empty());
    assert_eq!(q.elements(), vec![&1, &2, &3]);
    assert_eq!(q.dequeue(), Some(1));
    assert_eq!(q.dequeue(), Some(2));
    assert_eq!(q.dequeue(), Some(3));
    assert_eq!(q.dequeue(), None);
    assert!(q.is_empty());
}

#[test]
fn queue_contain() {
    let mut q = Queue::new();
    assert!(!q.contain(&3));
    q.enqueue(3);
    q.enqueue(5);
    assert!(q.contain(&3));
    assert!(q.contain(&5));
    assert!(!q.contain(&4));
    q.dequeue();
    assert!(!q.contain(&3));
}

#[test]
fn queue_retains_dequeued_sentinels() {
    let mut q = Queue::new();
    assert_eq!(q.nodes_in_use(), 1);
    for i in 0..10u64 {
        q.enqueue(i);
    }
    assert_eq!(q.nodes_in_use(), 11);
    for _ in 0..10 {
        q.dequeue();
    }
    // Memory does not return to the baseline: every displaced sentinel stays.
    assert_eq!(q.size(), 0);
    assert_eq!(q.nodes_in_use(), 11);
    q.enqueue(99);
    assert_eq!(q.nodes_in_use(), 12);
}
