use comere::nothing::list::List;
use comere::nothing::queue::Queue;

struct Payload {
    _data: String,
}

impl Payload {
    fn new() -> Self {
        Self { _data: "payload".to_string() }
    }
}

#[test]
fn nothing_can_construct_queue() {
    let q: Queue<Payload> = Queue::new();
    assert!(q.is_empty());
}

#[test]
fn nothing_st_queue_push() {
    let mut q: Queue<Payload> = Queue::new();
    q.push(Payload::new());
    q.push(Payload::new());
    q.push(Payload::new());
}

#[test]
fn st_queue_push_pop() {
    let mut q: Queue<u32> = Queue::new();
    q.push(1);
    let r = q.pop();
    assert_eq!(r, Some(1));
    assert_eq!(q.pop(), None);
}

#[test]
fn nothing_st_queue_push_pop_many() {
    let mut q: Queue<u32> = Queue::new();
    for i in 0..100 {
        q.push(i);
    }
    for i in 0..100 {
        assert_eq!(q.pop(), Some(i));
    }
    assert_eq!(q.pop(), None);
}

#[test]
fn nothing_st_queue_len() {
    let mut q: Queue<Payload> = Queue::new();
    for _ in 0..10 {
        q.push(Payload::new());
    }
    assert_eq!(q.len(), 10);
}

#[test]
fn nothing_list_insert_remove() {
    let mut list = List::new();
    assert!(list.is_empty());
    for i in 0..32usize {
        list.insert(i);
    }
    assert!(!list.is_empty());
    assert!(list.contains(&7));
    assert!(!list.contains(&32));
    // The last one in is the first one out.
    assert_eq!(list.remove_front(), Some(31));
    assert_eq!(list.remove(&7), Some(7));
    assert_eq!(list.remove(&7), None);
    assert!(!list.contains(&7));
    assert_eq!(list.remove(&0), Some(0));
    let mut left = 0;
    while let Some(_) = list.remove_front() {
        left += 1;
    }
    assert_eq!(left, 29);
    assert!(list.is_empty());
}

#[test]
fn nothing_enqueue_is_push() {
    let mut q: Queue<u32> = Queue::new();
    q.enqueue(1);
    q.push(2);
    q.enqueue(3);
    assert_eq!(q.len(), 3);
    assert_eq!(q.pop(), Some(1));
    assert_eq!(q.pop(), Some(2));
    assert_eq!(q.pop(), Some(3));
    assert_eq!(q.pop(), None);
    assert!(q.room());
}

#[test]
fn nothing_drop_hands_out_what_is_left() {
    let mut q: Queue<u32> = Queue::new();
    for i in 1..=5 {
        q.push(i);
    }
    assert_eq!(q.pop(), Some(1));
    assert_eq!(q.drop(), vec![2, 3, 4, 5]);

    let mut list: List<u32> = List::new();
    for i in 1..=5 {
        list.insert(i);
    }
    assert_eq!(list.remove(&3), Some(3));
    assert_eq!(list.drop(), vec![5, 4, 2, 1]);
}
