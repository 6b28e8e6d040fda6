use comere::heap::Heap;
use comere::hp::atomic::{data_with_tag, ensure_aligned, low_bits, Atomic, HazardPtr, Owned, Ptr};
use comere::hp::Registry;
use std::sync::atomic::Ordering::SeqCst;

#[test]
fn valid_tag_i8() {
    Ptr::<i8>::null().with_tag(0);
}

#[test]
fn valid_tag_i64() {
    Ptr::<i64>::null().with_tag(7);
}

#[test]
fn low_bits_follow_the_alignment() {
    assert_eq!(low_bits::<u8>(), 0);
    assert_eq!(low_bits::<u16>(), 1);
    assert_eq!(low_bits::<u32>(), 3);
    assert_eq!(low_bits::<u64>(), std::mem::align_of::<u64>() - 1);
}

#[test]
fn tag_is_cut_to_the_free_bits() {
    assert_eq!(Ptr::<u32>::null().with_tag(7).tag(), 3);
    assert_eq!(Ptr::<u8>::null().with_tag(1).tag(), 0);
    assert_eq!(Ptr::<u64>::null().with_tag(5).tag(), 5 & low_bits::<u64>());
    assert_eq!(data_with_tag::<u32>(0x1000, 2), 0x1002);
    assert_eq!(data_with_tag::<u32>(0x1003, 0), 0x1000);
}

#[test]
fn null_pointer_is_null_whatever_its_tag() {
    let p = Ptr::<u32>::null();
    assert!(p.is_null());
    assert_eq!(p.as_raw(), 0);
    assert!(p.with_tag(3).is_null());
    assert_eq!(p.with_tag(3).word(), 3);
}

#[test]
fn from_raw_keeps_the_address() {
    assert!(ensure_aligned::<u32>(64));
    assert!(!ensure_aligned::<u32>(66));
    let p = Ptr::<u32>::from_raw(64);
    assert_eq!(p.as_raw(), 64);
    assert_eq!(p.tag(), 0);
    let q = p.with_tag(1);
    assert_eq!(q.as_raw(), 64);
    assert_eq!(q.tag(), 1);
    assert!(!q.is_null());
}

#[test]
fn owned_goes_into_a_heap_and_comes_back() {
    let mut heap: Heap<u64> = Heap::new();
    let o = Owned::new(1234u64).with_tag(1);
    assert_eq!(o.tag(), 1);
    assert_eq!(*o.as_ref(), 1234);
    let p = o.into_ptr(&mut heap);
    assert!(!p.is_null());
    assert_eq!(p.tag(), 1);
    assert_eq!(*p.deref(&heap), 1234);
    assert_eq!(p.as_ref(&heap), Some(&1234));
    assert_eq!(heap.len(), 1);
    let back = p.into_owned(&mut heap);
    assert_eq!(back.into_inner(), 1234);
    assert_eq!(heap.len(), 0);
    assert!(!heap.contains(p.as_raw()));
}

#[test]
fn heap_never_hands_an_address_out_twice() {
    let mut heap: Heap<u32> = Heap::new();
    let a = heap.allocate(1);
    let b = heap.allocate(2);
    assert!(a != 0 && b != 0 && a != b);
    assert_eq!(heap.take(a), 1);
    let c = heap.allocate(3);
    assert!(c != a && c != b);
    assert_eq!(*heap.get(b), 2);
    assert_eq!(heap.replace(b, 5), 2);
    assert_eq!(*heap.get(b), 5);
    assert!(heap.room());
}

#[test]
fn atomic_load_store_swap() {
    let mut heap: Heap<i32> = Heap::new();
    let mut a = Atomic::new(1234, &mut heap);
    let p = a.load(SeqCst);
    assert_eq!(*p.deref(&heap), 1234);
    let old = a.swap(Ptr::null(), SeqCst);
    assert_eq!(old.word(), p.word());
    assert!(a.load(SeqCst).is_null());
    a.store(p, SeqCst);
    assert_eq!(a.load(SeqCst).word(), p.word());
    a.store_owned(Owned::new(5678), SeqCst, &mut heap);
    assert_eq!(*a.load(SeqCst).deref(&heap), 5678);
    let b = Atomic::from_ptr(p);
    assert_eq!(b.into_data(), p.word());
    let c = Atomic::from_owned(Owned::new(9), &mut heap);
    assert_eq!(*c.load(SeqCst).deref(&heap), 9);
}

#[test]
fn atomic_compare_and_set() {
    let mut heap: Heap<i32> = Heap::new();
    let mut a = Atomic::new(1, &mut heap);
    let curr = a.load(SeqCst);
    // A stale expectation fails and hands the word of the cell back.
    let stale = Ptr::<i32>::null();
    match a.compare_and_set(stale, Ptr::null(), SeqCst) {
        Ok(()) => panic!("the cell did not hold null"),
        Err(p) => assert_eq!(p.word(), curr.word()),
    }
    assert_eq!(a.load(SeqCst).word(), curr.word());
    assert!(a.compare_and_set_weak(curr, Ptr::null(), SeqCst).is_ok());
    assert!(a.load(SeqCst).is_null());
    // Publishing an owned value.
    match a.compare_and_set_owned(Ptr::null(), Owned::new(7), SeqCst, &mut heap) {
        Ok(p) => assert_eq!(*p.deref(&heap), 7),
        Err(_) => panic!("the cell held null"),
    }
    match a.compare_and_set_weak_owned(Ptr::null(), Owned::new(8), SeqCst, &mut heap) {
        Ok(_) => panic!("the cell did not hold null"),
        Err((p, o)) => {
            assert_eq!(*p.deref(&heap), 7);
            assert_eq!(o.into_inner(), 8);
        }
    }
    assert_eq!(heap.len(), 2);
}

#[test]
fn atomic_fetch_ops_touch_the_tag_only() {
    let mut a = Atomic::<i32>::from_ptr(Ptr::null().with_tag(3));
    assert_eq!(a.fetch_and(2, SeqCst).tag(), 3);
    assert_eq!(a.load(SeqCst).tag(), 2);
    let mut b = Atomic::<i32>::from_ptr(Ptr::null().with_tag(1));
    assert_eq!(b.fetch_or(2, SeqCst).tag(), 1);
    assert_eq!(b.load(SeqCst).tag(), 3);
    let mut c = Atomic::<i32>::from_ptr(Ptr::null().with_tag(1));
    assert_eq!(c.fetch_xor(3, SeqCst).tag(), 1);
    assert_eq!(c.load(SeqCst).tag(), 2);
    let mut d = Atomic::<i32>::from_ptr(Ptr::from_raw(64).with_tag(1));
    d.fetch_or(0xff0, SeqCst);
    assert_eq!(d.load(SeqCst).as_raw(), 64);
    d.fetch_and(0, SeqCst);
    assert_eq!(d.load(SeqCst).word(), 64);
}

#[test]
fn hazard_slots_are_taken_and_given_back() {
    let mut reg: Registry<u64> = Registry::new();
    let t = reg.get_next_thread_id();
    reg.marker(t);
    let u = reg.get_next_thread_id();
    reg.marker(u);
    assert!(!HazardPtr::<u64>::scan_addr(64, &reg));
    let hp = Ptr::<u64>::from_raw(64).hazard(&mut reg, t);
    assert!(hp.scan(&reg));
    assert!(HazardPtr::<u64>::scan_addr(64, &reg));
    // The other thread sees the claim too.
    let other = HazardPtr::<u64>::from_data(64);
    assert!(other.scan(&reg));
    assert!(other.deregister(&mut reg, u).is_err());
    hp.release(&mut reg, t);
    assert!(!HazardPtr::<u64>::scan_addr(64, &reg));
}

#[test]
fn hazard_slots_run_out() {
    let mut reg: Registry<u64> = Registry::new();
    let t = reg.get_next_thread_id();
    reg.marker(t);
    for i in 1..=comere::hp::NUM_HP {
        assert!(HazardPtr::<u64>::fake(8 * i).register(&mut reg, t).is_ok());
    }
    assert!(HazardPtr::<u64>::fake(800).register(&mut reg, t).is_err());
    assert!(HazardPtr::<u64>::fake(16).deregister(&mut reg, t).is_ok());
    assert!(HazardPtr::<u64>::fake(800).register(&mut reg, t).is_ok());
    HazardPtr::<u64>::fake(1).wait();
}

#[test]
fn retired_node_waits_while_it_is_claimed() {
    let mut reg: Registry<u64> = Registry::new();
    let t = reg.get_next_thread_id();
    reg.marker(t);
    let u = reg.get_next_thread_id();
    reg.marker(u);
    let mut heap: Heap<u64> = Heap::new();
    // The other thread claims the first node for good.
    let first = Owned::new(0u64).into_ptr(&mut heap);
    let _claim = first.hazard(&mut reg, u);
    first.hazard(&mut reg, t).free(&mut reg, t, &mut heap);
    for i in 1..comere::hp::SWEEP_PERIOD as u64 {
        let p = Owned::new(i).into_ptr(&mut heap);
        p.hazard(&mut reg, t).free(&mut reg, t, &mut heap);
    }
    // The sweep at the last retirement has freed all but the claimed one.
    assert_eq!(heap.len(), 0);
    assert!(HazardPtr::<u64>::scan_addr(first.as_raw(), &reg));
}
