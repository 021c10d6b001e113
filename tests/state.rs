use reactive_state::{effect, use_state, StateObject};
use std::cell::RefCell;

#[test]
fn effect_test() {
    let mut counter = 0;
    let mut state1: StateObject<i32, fn(&i32)> = use_state(counter);
    counter += 1;
    let mut state2: StateObject<i32, fn(&i32)> = use_state(counter);

    effect(
        |state| assert!((*state == 0) || (*state == 1)),
        vec![&mut state1, &mut state2],
    );

    state1.set(1).unwrap();
    state2.set(0).unwrap();
}

#[test]
fn clone_test() {
    let counter = 0;
    let mut state: StateObject<i32, fn(&i32)> = use_state(counter);
    assert_eq!(state.get(), counter);

    let mut id = state.signal(|state| {
        assert_ne!(*state, -1);
    });

    let mut id2 = id.clone();

    state.set(2).unwrap();

    let mut state2 = state.clone();
    let state3 = StateObject::new_from(&state);

    // the copies hold the value and then go their own way
    assert_eq!(state2.get(), state.get());
    assert_eq!(state3.get(), state.get());
    state2.set(3).unwrap();
    assert_ne!(state2.get(), state.get());
    assert_eq!(state3.get(), state.get());

    // each copy has its own slots, at the same indices
    assert!(state.rm_signal(&mut id));
    state.set(-1).unwrap();

    assert!(state2.rm_signal(&mut id2));
    state2.set(-1).unwrap();
}

#[test]
fn state_test() {
    let mut counter = 0;
    let mut state: StateObject<i32, fn(&i32)> = use_state(counter);
    assert_eq!(state.get(), counter);

    counter = state.get();
    state.set(counter + 2).unwrap();
    assert_ne!(counter, state.get());
    assert_eq!(counter + 2, state.get());

    counter = state.get();
    state.setter(|v| v + 1).expect("No se pudo acceder al mutex lock!");
    assert_ne!(counter, state.get());
}

#[test]
fn signal_test() {
    let mut counter = 0;
    let mut state: StateObject<i32, fn(&i32)> = use_state(counter);
    let mut id = state.signal(|state| {
        assert_ne!(*state, -1);
    });

    assert_eq!(state.get(), counter);
    counter = state.get();
    state.set(counter + 2).unwrap();
    assert_ne!(counter, state.get());
    assert_eq!(counter + 2, state.get());

    let mut id2 = state.signal(|state| {
        assert_eq!(*state, -1);
    });

    state.rm_signal(&mut id);
    state.set(-1).unwrap();
    assert_eq!(state.get(), -1);
    // compacting here would shift the slot that id2 holds the index of
    assert!(state.rm_signal(&mut id2));
    state.flush_signals();

    state.set(2).unwrap();
    assert_eq!(state.get(), 2);
}

#[test]
fn equal_value_runs_no_callback() {
    let log: RefCell<Vec<i32>> = RefCell::new(Vec::new());
    let cb = |v: &i32| log.borrow_mut().push(*v);
    let mut state = use_state(4);
    state.signal(cb);
    assert_eq!(state.set(4), Ok(()));
    assert_eq!(state.get(), 4);
    assert!(log.borrow().is_empty());
}

#[test]
fn changed_value_runs_every_live_callback_once() {
    let log: RefCell<Vec<i32>> = RefCell::new(Vec::new());
    let cb = |v: &i32| log.borrow_mut().push(*v);
    let mut state = use_state(0);
    state.signal(cb);
    state.signal(cb);
    assert_eq!(state.set(9), Ok(()));
    assert_eq!(state.get(), 9);
    assert_eq!(*log.borrow(), vec![9, 9]);
}

#[test]
fn subscribe_then_unsubscribe() {
    let log: RefCell<Vec<i32>> = RefCell::new(Vec::new());
    let cb = |v: &i32| log.borrow_mut().push(*v);
    let mut state = use_state(1);
    let mut handle = state.signal(cb);
    assert_eq!(handle.get(), 0);
    assert!(state.rm_signal(&mut handle));
    assert_eq!(handle.get(), -1);
    state.set(2).unwrap();
    assert!(log.borrow().is_empty());
    // a used handle no longer names a slot
    assert!(!state.rm_signal(&mut handle));
}

#[test]
fn unsubscribe_out_of_range_changes_nothing() {
    let mut state: StateObject<i32, fn(&i32)> = use_state(0);
    let mut handle: StateObject<isize, fn(&i32)> = StateObject::new(3);
    assert!(!state.rm_signal(&mut handle));
    assert_eq!(handle.get(), 3);
    let mut negative: StateObject<isize, fn(&i32)> = StateObject::new(-5);
    assert!(!state.rm_signal(&mut negative));
    assert_eq!(negative.get(), -5);
}

#[test]
fn handles_count_up_from_zero() {
    let mut state: StateObject<i32, fn(&i32)> = use_state(0);
    let a = state.signal(|_| {});
    let b = state.signal(|_| {});
    let c = state.signal(|_| {});
    assert_eq!((a.get(), b.get(), c.get()), (0, 1, 2));
}

#[test]
fn clone_is_independent() {
    let log: RefCell<Vec<i32>> = RefCell::new(Vec::new());
    let cb = |v: &i32| log.borrow_mut().push(*v);
    let mut a = use_state(10);
    a.signal(cb);
    let mut b = a.clone();
    assert_eq!(b.get(), a.get());
    b.set(11).unwrap();
    assert_eq!(a.get(), 10);
    assert_eq!(b.get(), 11);
    assert_eq!(*log.borrow(), vec![11]);
}

#[test]
fn clone_keeps_tombstones_in_place() {
    let mut a: StateObject<i32, fn(&i32)> = use_state(0);
    let mut first = a.signal(|_| {});
    let _second = a.signal(|_| {});
    assert!(a.rm_signal(&mut first));
    let mut b = a.clone();
    assert_eq!(b.flush_signals(), 1);
    assert_eq!(a.flush_signals(), 1);
}

#[test]
fn snapshot_has_value_and_no_slots() {
    let log: RefCell<Vec<i32>> = RefCell::new(Vec::new());
    let cb = |v: &i32| log.borrow_mut().push(*v);
    let mut a = use_state(7);
    a.signal(cb);
    a.signal(cb);
    let mut s = StateObject::new_from(&a);
    assert_eq!(s.get(), 7);
    s.set(8).unwrap();
    assert!(log.borrow().is_empty());
    assert_eq!(s.flush_signals(), 0);
    assert_eq!(a.get(), 7);
}

#[test]
fn compaction_removes_unsubscribed_slots() {
    let log: RefCell<Vec<i32>> = RefCell::new(Vec::new());
    let cb = |v: &i32| log.borrow_mut().push(*v);
    let mut state = use_state(0);
    let mut h0 = state.signal(cb);
    let _h1 = state.signal(cb);
    let mut h2 = state.signal(cb);
    let _h3 = state.signal(cb);
    assert!(state.rm_signal(&mut h0));
    assert!(state.rm_signal(&mut h2));
    assert_eq!(state.flush_signals(), 2);
    state.set(3).unwrap();
    assert_eq!(*log.borrow(), vec![3, 3]);
    assert_eq!(state.flush_signals(), 0);
}

#[test]
fn concrete_scenario() {
    let log: RefCell<Vec<i32>> = RefCell::new(Vec::new());
    let cb = |v: &i32| log.borrow_mut().push(*v);
    let mut container = use_state(0);
    let mut handle = container.signal(cb);
    container.set(5).unwrap();
    assert_eq!(*log.borrow(), vec![5]);
    assert!(container.rm_signal(&mut handle));
    assert_eq!(handle.get(), -1);
    container.set(6).unwrap();
    assert_eq!(*log.borrow(), vec![5]);
    assert_eq!(container.get(), 6);
}

#[test]
fn effect_primes_with_default() {
    let log: RefCell<Vec<i32>> = RefCell::new(Vec::new());
    let cb = |v: &i32| log.borrow_mut().push(*v);
    let mut container = use_state(7);
    effect(cb, vec![&mut container]);
    assert_eq!(*log.borrow(), vec![0]);
    container.set(8).unwrap();
    assert_eq!(*log.borrow(), vec![0, 8]);
    assert_eq!(container.get(), 8);
}

#[test]
fn setter_applies_the_function() {
    let log: RefCell<Vec<i32>> = RefCell::new(Vec::new());
    let cb = |v: &i32| log.borrow_mut().push(*v);
    let mut state = use_state(20);
    state.signal(cb);
    state.setter(|v| v * 2).unwrap();
    assert_eq!(state.get(), 40);
    state.setter(|v| v).unwrap();
    assert_eq!(*log.borrow(), vec![40]);
}
