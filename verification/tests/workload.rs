use comere::ebr;
use comere::hp;
use comere::nothing;
use comere::workload::{apply_ebr, apply_hp, apply_nothing, op_for, random_op, Operation};
use comere::workload::{NUM_ELEMENTS, NUM_ELEMENTS_SMALLER};

#[test]
fn draws_become_operations() {
    assert_eq!(op_for(0, 5), Operation::Insert(5));
    assert_eq!(op_for(3, 5), Operation::Insert(5));
    assert_eq!(op_for(4, 5), Operation::Search(5));
    assert_eq!(op_for(5, 5), Operation::Search(5));
    assert_eq!(op_for(6, 5), Operation::Remove(5));
    assert_eq!(op_for(7, 5), Operation::Remove(5));
    assert_eq!(op_for(8, 5), Operation::PopFront);
    assert_eq!(op_for(9, 5), Operation::PopFront);
    assert_eq!(NUM_ELEMENTS, 256 * 256);
}

#[test]
fn random_operations_stay_in_range() {
    let mut rng = rand::thread_rng();
    let mut seen_insert = false;
    let mut seen_other = false;
    for _ in 0..2000 {
        match random_op(&mut rng) {
            Operation::Insert(n) => {
                assert!((n as usize) < NUM_ELEMENTS_SMALLER);
                seen_insert = true;
            }
            Operation::Search(n) | Operation::Remove(n) => {
                assert!((n as usize) < NUM_ELEMENTS_SMALLER);
                seen_other = true;
            }
            Operation::PopFront => seen_other = true,
        }
    }
    assert!(seen_insert && seen_other);
}

#[test]
fn the_three_lists_agree_on_a_random_workload() {
    let mut rng = rand::thread_rng();
    let mut plain = nothing::list::List::new();
    let mut hazard = hp::list::List::new();
    let mut epoch = ebr::list::List::new();
    let mut reg = hp::Registry::new();
    let t = reg.get_next_thread_id();
    reg.marker(t);
    let mut global = ebr::GlobalState::new();
    let mut local = ebr::LocalState::new();
    let mut model: Vec<u32> = Vec::new();
    for _ in 0..3000 {
        let op = random_op(&mut rng);
        assert!(apply_nothing(&mut plain, op));
        assert!(apply_hp(&mut hazard, op, &mut reg, t));
        assert!(ebr::pin(&mut global, &mut local, |g, l, p| apply_ebr(&mut epoch, op, p, g, l)));
        match op {
            Operation::Insert(n) => model.insert(0, n),
            Operation::Search(_) => {}
            Operation::Remove(n) => {
                if let Some(i) = model.iter().position(|&x| x == n) {
                    model.remove(i);
                }
            }
            Operation::PopFront => {
                if !model.is_empty() {
                    model.remove(0);
                }
            }
        }
    }
    for &n in &model {
        assert_eq!(plain.remove_front(), Some(n));
        assert_eq!(hazard.remove_front(&mut reg, t), Some(n));
        let r = ebr::pin(&mut global, &mut local, |g, l, p| epoch.remove_front(p, g, l));
        assert_eq!(r, Some(n));
    }
    assert!(plain.is_empty() && hazard.is_empty() && epoch.is_empty(ebr::Pin::fake()));
}
