use comere::hp::atomic::HazardPtr;
use comere::hp::list::{List, Node};
use comere::hp::queue::Queue;
use comere::hp::{Registry, SWEEP_PERIOD};
use std::sync::atomic::{AtomicUsize, Ordering};

struct Payload {
    _data: String,
}

impl Payload {
    fn new() -> Self {
        Self { _data: "payload".to_string() }
    }
}

fn registry<G>() -> (Registry<G>, usize) {
    let mut reg = Registry::new();
    let t = reg.get_next_thread_id();
    reg.marker(t);
    (reg, t)
}

#[test]
fn insert() {
    let (mut reg, t) = registry();
    let mut list = List::new();
    const N: usize = 32;
    for i in 0..N {
        list.insert(i, &mut reg, t);
    }
    assert_eq!(list.iter(&mut reg, t).count(&list, &mut reg, t), N);
}

#[test]
fn remove_front() {
    let (mut reg, t) = registry();
    let mut list = List::new();
    const N: usize = 32;
    for i in 0..N {
        list.insert(i, &mut reg, t);
    }
    for i in (0..N).rev() {
        let ret = list.remove_front(&mut reg, t);
        assert_eq!(ret, Some(i));
    }
    let mut it = list.iter(&mut reg, t);
    assert_eq!(it.next(&list, &mut reg, t), None);
    it.finish(&mut reg, t);
}

#[test]
fn remove() {
    const N_THREADS: usize = 4;
    const N: usize = 1024 * 32 / 16;
    let mut reg: Registry<Node<usize>> = Registry::new();
    let threads: Vec<usize> = (0..N_THREADS)
        .map(|_| {
            let t = reg.get_next_thread_id();
            reg.marker(t);
            t
        })
        .collect();
    let mut list: List<usize> = List::new();
    for i in 0..N {
        list.insert(i, &mut reg, threads[0]);
    }
    assert_eq!(list.iter(&mut reg, threads[0]).count(&list, &mut reg, threads[0]), N);
    // Each thread removes the values of its own residue class, one thread
    // after the other.
    for (thread_id, &t) in threads.iter().enumerate() {
        for i in (0..N / N_THREADS).rev() {
            let n = i * N_THREADS + thread_id;
            assert!(list.remove(&n, &mut reg, t).is_some());
        }
    }
    while let Some(_) = list.remove_front(&mut reg, threads[0]) {}
    assert!(list.is_empty());
}

#[test]
fn hp_list_contains_and_remove_with_node() {
    let (mut reg, t) = registry();
    let mut list = List::new();
    for i in 0..8usize {
        list.insert(i, &mut reg, t);
    }
    assert!(list.contains(&3, &mut reg, t));
    assert!(!list.contains(&8, &mut reg, t));
    let node = list.remove_with_node(&3, &mut reg, t);
    match node {
        Some(o) => assert_eq!(o.into_inner().data, Some(3)),
        None => panic!("the value was in the list"),
    }
    assert!(list.remove_with_node(&3, &mut reg, t).is_none());
    assert!(!list.contains(&3, &mut reg, t));
    assert_eq!(list.remove(&3, &mut reg, t), None);
    assert_eq!(list.remove(&0, &mut reg, t), Some(0));
    assert_eq!(list.remove(&7, &mut reg, t), Some(7));
    assert_eq!(list.iter(&mut reg, t).count(&list, &mut reg, t), 5);
    // Every claim was given back.
    assert!(HazardPtr::<Node<usize>>::fake(0).register(&mut reg, t).is_ok());
}

#[test]
fn can_construct_queue() {
    let _: Queue<Payload> = Queue::new();
}

#[test]
fn st_queue_push() {
    let (mut reg, t) = registry();
    let mut q: Queue<Payload> = Queue::new();
    q.push(Payload::new(), &mut reg, t);
    q.push(Payload::new(), &mut reg, t);
    q.push(Payload::new(), &mut reg, t);
}

#[test]
fn st_queue_push_pop_many() {
    let (mut reg, t) = registry();
    let mut q: Queue<u32> = Queue::new();
    for i in 0..100 {
        q.push(i, &mut reg, t);
    }
    for i in 0..100 {
        assert_eq!(q.pop(&mut reg, t), Some(i));
    }
    assert_eq!(q.pop(&mut reg, t), None);
}

#[test]
fn st_queue_len() {
    let (mut reg, t) = registry();
    let mut q: Queue<Payload> = Queue::new();
    for _ in 0..10 {
        q.push(Payload::new(), &mut reg, t);
    }
    assert_eq!(q.len(), 10);
}

#[derive(Debug)]
struct NoDrop;

impl Drop for NoDrop {
    fn drop(&mut self) {
        panic!("did drop!");
    }
}

#[test]
fn no_drop() {
    let (mut reg, t) = registry();
    let mut q = Queue::new();
    let iters = 1024 * 1024;
    for _i in 0..iters {
        q.push(NoDrop, &mut reg, t);
        let r = q.pop(&mut reg, t).unwrap();
        ::std::mem::forget(r);
    }
}

#[derive(Debug)]
struct SingleDrop(bool);

impl Drop for SingleDrop {
    fn drop(&mut self) {
        if self.0 {
            panic!("Dropped before!");
        }
        self.0 = true;
    }
}

#[test]
fn single_drop() {
    let (mut reg, t) = registry();
    let mut q = Queue::new();
    let iters = 1024 * 1024;
    for _i in 0..iters {
        q.push(SingleDrop(false), &mut reg, t);
        q.pop(&mut reg, t);
    }
}

#[derive(Clone, Debug)]
struct MustDrop<'a>(&'a AtomicUsize);

impl<'a> Drop for MustDrop<'a> {
    fn drop(&mut self) {
        self.0.fetch_add(1, Ordering::SeqCst);
    }
}

static HP_ATOMIC_COUNT: AtomicUsize = AtomicUsize::new(0);

#[test]
fn do_drop() {
    let (mut reg, t) = registry();
    let mut q = Queue::new();
    let iters = 1024 * 1024;
    for _i in 0..iters {
        q.push(MustDrop(&HP_ATOMIC_COUNT), &mut reg, t);
        q.pop(&mut reg, t);
    }
    assert_eq!(HP_ATOMIC_COUNT.load(Ordering::SeqCst), iters);
}

static HP_RESIDENT_COUNT: AtomicUsize = AtomicUsize::new(0);

#[test]
fn hp_queue_drops_what_it_still_holds() {
    {
        let (mut reg, t) = registry();
        let mut q = Queue::new();
        for _ in 0..10 {
            q.push(MustDrop(&HP_RESIDENT_COUNT), &mut reg, t);
        }
        for _ in 0..4 {
            let _ = q.pop(&mut reg, t);
        }
        assert_eq!(HP_RESIDENT_COUNT.load(Ordering::SeqCst), 4);
    }
    assert_eq!(HP_RESIDENT_COUNT.load(Ordering::SeqCst), 10);
}

#[test]
fn hp_queue_pop_with_wait_frees_at_once() {
    let (mut reg, t) = registry();
    let mut q: Queue<u32> = Queue::new();
    q.push(7, &mut reg, t);
    assert!(!q.is_empty());
    assert_eq!(q.pop_hp_fn(true, &mut reg, t), Some(7));
    assert!(q.is_empty());
    assert_eq!(q.pop_hp_fn(true, &mut reg, t), None);
    assert_eq!(q.len(), 0);
    assert!(q.room());
    let _ = SWEEP_PERIOD;
}

static HP_ENDED_COUNT: AtomicUsize = AtomicUsize::new(0);

#[test]
fn hp_queue_drop_hands_out_what_is_left() {
    let (mut reg, t) = registry();
    let mut q: Queue<u32> = Queue::new();
    for i in 1..=5 {
        q.push(i, &mut reg, t);
    }
    assert_eq!(q.pop(&mut reg, t), Some(1));
    assert_eq!(q.pop(&mut reg, t), Some(2));
    assert_eq!(q.drop(), vec![3, 4, 5]);

    let empty: Queue<u32> = Queue::new();
    assert_eq!(empty.drop(), Vec::<u32>::new());

    let (mut reg, t) = registry();
    let mut q = Queue::new();
    for _ in 0..10 {
        q.push(MustDrop(&HP_ENDED_COUNT), &mut reg, t);
    }
    for _ in 0..4 {
        let _ = q.pop(&mut reg, t);
    }
    assert_eq!(HP_ENDED_COUNT.load(Ordering::SeqCst), 4);
    let left = q.drop();
    assert_eq!(left.len(), 6);
    assert_eq!(HP_ENDED_COUNT.load(Ordering::SeqCst), 4);
    std::mem::drop(left);
    assert_eq!(HP_ENDED_COUNT.load(Ordering::SeqCst), 10);
}

#[test]
fn hp_list_drop_hands_out_what_is_left() {
    let (mut reg, t) = registry();
    let mut list: List<u32> = List::new();
    for i in 1..=5 {
        list.insert(i, &mut reg, t);
    }
    assert_eq!(list.remove(&4, &mut reg, t), Some(4));
    assert_eq!(list.remove_front(&mut reg, t), Some(5));
    assert_eq!(list.drop(), vec![3, 2, 1]);
    let empty: List<u32> = List::new();
    assert_eq!(empty.drop(), Vec::<u32>::new());
}
