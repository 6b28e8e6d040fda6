use comere::ebr::list::List;
use comere::ebr::queue::{Node, Queue};
use comere::ebr::{pin, Bag, Garbage, GlobalState, LocalState, Pin, ThreadPinMarker, BAG_SIZE};
use comere::hp::atomic::Owned;
use rand::{thread_rng, Rng};
use std::sync::atomic::{AtomicUsize, Ordering};

#[derive(Debug)]
struct Payload {
    _data: String,
}

impl Payload {
    fn new() -> Self {
        Self { _data: "payload".to_string() }
    }
}

#[test]
fn add_garbage() {
    const N: usize = 1024 * 32;
    let mut global = GlobalState::new();
    let mut local = LocalState::new();
    for _ in 0..N {
        pin(&mut global, &mut local, |g, l, pin| pin.add_garbage(Owned::new(0usize), g, l));
    }
}

#[test]
fn list_insert() {
    let mut global: GlobalState<comere::ebr::list::Node<usize>> = GlobalState::new();
    let mut local = LocalState::new();
    let mut list = List::new();
    const N: usize = 32;
    for i in 0..N {
        pin(&mut global, &mut local, |_, _, pin| {
            assert!(!list.insert(i, pin).is_null());
        });
    }
    pin(&mut global, &mut local, |_, _, pin| assert_eq!(list.iter(pin).count(&list), N));
}

#[test]
fn list_remove_front() {
    let mut global = GlobalState::new();
    let mut local = LocalState::new();
    let mut list = List::new();
    const N: usize = 32;
    pin(&mut global, &mut local, |_, _, pin| {
        for i in 0..N {
            assert!(!list.insert(i, pin).is_null());
        }
    });
    for i in (0..N).rev() {
        let ret = pin(&mut global, &mut local, |g, l, pin| list.remove_front(pin, g, l));
        assert_eq!(ret, Some(i));
    }
    pin(&mut global, &mut local, |_, _, pin| assert_eq!(list.iter(pin).next(&list), None));
}

#[test]
fn list_remove() {
    let mut global = GlobalState::new();
    let mut local = LocalState::new();
    let mut list = List::new();
    const N: usize = 32;
    pin(&mut global, &mut local, |_, _, pin| {
        for i in 0..N {
            assert!(!list.insert(i, pin).is_null());
        }
    });
    let mut ids = (0..N).collect::<Vec<_>>();
    let mut rng = thread_rng();
    rng.shuffle(&mut ids);

    for i in (0..N).rev() {
        let ret = pin(&mut global, &mut local, |g, l, pin| list.remove(&ids[i], pin, g, l));
        assert!(ret.is_some());
    }
    pin(&mut global, &mut local, |_, _, pin| assert_eq!(list.iter(pin).next(&list), None));
}

#[test]
fn ebr_list_contains_all_is_empty() {
    let mut global: GlobalState<comere::ebr::list::Node<u32>> = GlobalState::new();
    let mut local = LocalState::new();
    let mut list: List<u32> = List::new();
    let pin_token = Pin::fake();
    assert!(list.is_empty(pin_token));
    for i in 0..5u32 {
        list.insert(2 * i, pin_token);
    }
    assert!(list.contains(&4, pin_token));
    assert!(!list.contains(&5, pin_token));
    assert!(list.all(|x| x % 2 == 0, pin_token));
    assert!(!list.all(|x| *x < 8, pin_token));
    let removed = pin(&mut global, &mut local, |g, l, p| list.remove(&4, p, g, l));
    assert_eq!(removed, Some(4));
    let removed = pin(&mut global, &mut local, |g, l, p| list.remove(&4, p, g, l));
    assert_eq!(removed, None);
    assert!(!list.contains(&4, pin_token));
    assert!(list.room());
}

#[test]
fn queue_can_construct_queue() {
    let mut global: GlobalState<Node<Payload>> = GlobalState::new();
    let mut local = LocalState::new();
    pin(&mut global, &mut local, |_, _, _pin| {
        let _q: Queue<Payload> = Queue::new();
    });
}

#[test]
fn queue_st_queue_push() {
    let mut global: GlobalState<Node<Payload>> = GlobalState::new();
    let mut local = LocalState::new();
    pin(&mut global, &mut local, |_, _, pin| {
        let mut q: Queue<Payload> = Queue::new();
        q.push(Payload::new(), pin);
        q.push(Payload::new(), pin);
        q.push(Payload::new(), pin);
    });
}

#[test]
fn queue_st_queue_push_pop() {
    let mut global = GlobalState::new();
    let mut local = LocalState::new();
    pin(&mut global, &mut local, |g, l, pin| {
        let mut q: Queue<u32> = Queue::new();
        q.push(1, pin);
        let r = q.pop(pin, g, l);
        assert_eq!(r, Some(1));
        assert_eq!(q.pop(pin, g, l), None);
    })
}

#[test]
fn queue_st_queue_push_pop_many() {
    let mut global = GlobalState::new();
    let mut local = LocalState::new();
    pin(&mut global, &mut local, |g, l, pin| {
        let mut q: Queue<u32> = Queue::new();
        for i in 0..100 {
            q.push(i, pin);
        }
        for i in 0..100 {
            assert_eq!(q.pop(pin, g, l), Some(i));
        }
        assert_eq!(q.pop(pin, g, l), None);
    });
}

#[test]
fn queue_st_queue_len() {
    let mut global: GlobalState<Node<Payload>> = GlobalState::new();
    let mut local = LocalState::new();
    pin(&mut global, &mut local, |_, _, pin| {
        let mut q: Queue<Payload> = Queue::new();
        for _ in 0..10 {
            q.push(Payload::new(), pin);
        }
        assert_eq!(q.len(pin), 10);
    });
}

#[derive(Debug)]
struct NoDrop;

impl Drop for NoDrop {
    fn drop(&mut self) {
        panic!("did drop!");
    }
}

#[test]
fn queue_no_drop() {
    let mut global = GlobalState::new();
    let mut local = LocalState::new();
    let mut q = Queue::new();
    let iters = 1024 * 1024;
    for _ in 0..iters {
        pin(&mut global, &mut local, |g, l, pin| {
            q.push(NoDrop, pin);
            let r = q.pop(pin, g, l).unwrap();
            ::std::mem::forget(r);
        })
    }
}

#[derive(Debug)]
struct SingleDrop(bool);

impl Drop for SingleDrop {
    fn drop(&mut self) {
        if self.0 {
            panic!("Dropped before!");
        }
        self.0 = true;
    }
}

#[test]
fn queue_single_drop() {
    let mut global = GlobalState::new();
    let mut local = LocalState::new();
    let mut q = Queue::new();
    let iters = 1024 * 1024;
    for _ in 0..iters {
        pin(&mut global, &mut local, |g, l, pin| {
            q.push(SingleDrop(false), pin);
            q.pop(pin, g, l);
        })
    }
}

#[derive(Clone, Debug)]
struct MustDrop<'a>(&'a AtomicUsize);

impl<'a> Drop for MustDrop<'a> {
    fn drop(&mut self) {
        self.0.fetch_add(1, Ordering::SeqCst);
    }
}

static ATOMIC_COUNT: AtomicUsize = AtomicUsize::new(0);

#[test]
fn queue_do_drop() {
    let mut global = GlobalState::new();
    let mut local = LocalState::new();
    let mut q = Queue::new();
    let iters = 1024 * 1024;
    for _ in 0..iters {
        pin(&mut global, &mut local, |g, l, pin| {
            q.push(MustDrop(&ATOMIC_COUNT), pin);
            q.pop(pin, g, l);
        });
    }
    assert_eq!(ATOMIC_COUNT.load(Ordering::SeqCst), iters);
}

#[test]
fn ebr_queue_pop_if() {
    let mut global = GlobalState::new();
    let mut local = LocalState::new();
    let mut q: Queue<u32> = Queue::new();
    let p = Pin::fake();
    assert!(q.is_empty(p));
    q.push(3, p);
    q.push(4, p);
    let r = pin(&mut global, &mut local, |g, l, pin| q.pop_if(|x| *x > 3, pin, g, l));
    assert_eq!(r, None);
    assert_eq!(q.len(p), 2);
    let r = pin(&mut global, &mut local, |g, l, pin| q.pop_if(|x| *x == 3, pin, g, l));
    assert_eq!(r, Some(3));
    assert_eq!(q.len(p), 1);
    assert!(!q.is_empty(p));
}

#[test]
fn marker_packs_epoch_and_pinned_bit() {
    let mut m = ThreadPinMarker::new(4);
    assert_eq!(m.epoch_and_pinned(), (0, false));
    m.pin(9);
    assert_eq!(m.epoch_and_pinned(), (9, true));
    assert_eq!(m.epoch(), 9);
    assert!(m.is_pinned());
    m.unpin();
    assert_eq!(m.epoch_and_pinned(), (9, false));
    m.pin(10);
    assert_eq!(m.epoch(), 10);
}

#[test]
fn bag_takes_thirty_two() {
    let mut bag: Bag<u8> = Bag::new();
    for i in 0..BAG_SIZE {
        assert!(!bag.is_full());
        assert!(bag.try_insert(Garbage::new(Owned::new(i as u8), 0)).is_ok());
    }
    assert!(bag.is_full());
    match bag.try_insert(Garbage::new(Owned::new(99), 0)) {
        Ok(()) => panic!("the bag was full"),
        Err(g) => assert_eq!(g.0.into_inner(), 99),
    }
    bag.free_all();
    assert!(!bag.is_full());
    bag.drop();
}

static EPOCH_COUNT: AtomicUsize = AtomicUsize::new(0);

#[test]
fn bag_is_freed_two_epochs_after_it_was_queued() {
    let mut global = GlobalState::new();
    let mut local = LocalState::new();
    let t = local.marker(&mut global);
    assert_eq!(t, 0);
    // Fill one bag and one more object: the full bag is queued at epoch 0.
    for _ in 0..BAG_SIZE + 1 {
        local.add_garbage(Owned::new(MustDrop(&EPOCH_COUNT)), &mut global);
    }
    assert_eq!(EPOCH_COUNT.load(Ordering::SeqCst), 0);
    assert!(global.can_increment_epoch());
    global.increment_epoch(0);
    assert_eq!(global.epoch_now(), 1);
    assert_eq!(EPOCH_COUNT.load(Ordering::SeqCst), 0);
    // A stale epoch moves nothing.
    global.increment_epoch(0);
    assert_eq!(global.epoch_now(), 1);
    global.increment_epoch(1);
    assert_eq!(global.epoch_now(), 2);
    assert_eq!(EPOCH_COUNT.load(Ordering::SeqCst), BAG_SIZE);
}

#[test]
fn epoch_waits_for_pinned_threads() {
    let mut global: GlobalState<u8> = GlobalState::new();
    let mut a: LocalState<u8> = LocalState::new();
    let mut b: LocalState<u8> = LocalState::new();
    let ta = a.marker(&mut global);
    let tb = b.marker(&mut global);
    assert!(ta != tb);
    global.pin_marker(ta);
    assert!(global.can_increment_epoch());
    global.increment_epoch(0);
    // Thread a is pinned at epoch 0, and the epoch is 1 now.
    assert!(!global.can_increment_epoch());
    global.pin_marker(tb);
    assert!(!global.can_increment_epoch());
    global.unpin_marker(ta);
    assert!(global.can_increment_epoch());
    global.unpin_marker(tb);
    b.leave(&mut global);
    a.leave(&mut global);
}

#[test]
fn epoch_moves_on_every_thousandth_pin() {
    let mut global: GlobalState<u8> = GlobalState::new();
    let mut local: LocalState<u8> = LocalState::new();
    for _ in 0..999 {
        pin(&mut global, &mut local, |_, _, _| {});
    }
    assert_eq!(global.epoch_now(), 0);
    pin(&mut global, &mut local, |_, _, _| {});
    assert_eq!(global.epoch_now(), 1);
    for _ in 0..1000 {
        pin(&mut global, &mut local, |_, _, _| {});
    }
    assert_eq!(global.epoch_now(), 2);
}

#[test]
fn ebr_list_remove_with_hands_the_node_over() {
    let mut list: List<u32> = List::new();
    let p = Pin::fake();
    for i in 0..4u32 {
        list.insert(i, p);
    }
    let mut got = None;
    assert!(list.remove_with(&2, p, |o| got = o.into_inner().data));
    assert_eq!(got, Some(2));
    assert!(!list.remove_with(&2, p, |_| panic!("the value was gone")));
    assert_eq!(list.iter(p).count(&list), 3);
}

static EBR_ENDED_COUNT: AtomicUsize = AtomicUsize::new(0);

#[test]
fn ebr_queue_drop_hands_out_what_is_left() {
    let mut global = GlobalState::new();
    let mut local = LocalState::new();
    let mut q: Queue<u32> = Queue::new();
    pin(&mut global, &mut local, |g, l, pin| {
        for i in 1..=5 {
            q.push(i, pin);
        }
        assert_eq!(q.pop(pin, g, l), Some(1));
        assert_eq!(q.pop(pin, g, l), Some(2));
    });
    assert_eq!(q.drop(), vec![3, 4, 5]);

    let mut global = GlobalState::new();
    let mut local = LocalState::new();
    let mut q = Queue::new();
    pin(&mut global, &mut local, |g, l, pin| {
        for _ in 0..10 {
            q.push(MustDrop(&EBR_ENDED_COUNT), pin);
        }
        for _ in 0..4 {
            let _ = q.pop(pin, g, l);
        }
    });
    assert_eq!(EBR_ENDED_COUNT.load(Ordering::SeqCst), 4);
    std::mem::drop(q.drop());
    assert_eq!(EBR_ENDED_COUNT.load(Ordering::SeqCst), 10);
}

#[test]
fn ebr_list_drop_hands_out_what_is_left() {
    let mut global = GlobalState::new();
    let mut local = LocalState::new();
    let mut list: List<u32> = List::new();
    pin(&mut global, &mut local, |g, l, pin| {
        for i in 1..=5 {
            list.insert(i, pin);
        }
        assert_eq!(list.remove(&4, pin, g, l), Some(4));
        assert_eq!(list.remove_front(pin, g, l), Some(5));
    });
    assert_eq!(list.drop(), vec![3, 2, 1]);
}
