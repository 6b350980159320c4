use jview::worker::{Outlet, POLL_STRIDE};
use std::sync::atomic::{AtomicBool, Ordering};
use std::sync::mpsc::channel;

#[test]
fn the_flag_is_looked_at_every_so_many_times() {
    let (tx, _rx) = channel::<u8>();
    let cancel = AtomicBool::new(true);
    let mut out = Outlet::new(&tx, &cancel);
    for _ in 1..POLL_STRIDE {
        assert!(!out.poll());
    }
    assert!(!out.is_stopped());
    assert!(out.poll());
    assert!(out.is_stopped());
}

#[test]
fn a_look_tells_what_the_flag_shows() {
    let (tx, _rx) = channel::<u8>();
    let cancel = AtomicBool::new(false);
    let mut out = Outlet::new(&tx, &cancel);
    assert!(!out.poll_now());
    assert!(!out.is_stopped());
    cancel.store(true, Ordering::Relaxed);
    assert!(out.poll_now());
    // Once told to stop, always told.
    cancel.store(false, Ordering::Relaxed);
    assert!(!out.poll_now());
    assert!(out.is_stopped());
}

#[test]
fn results_are_counted_until_nobody_takes_them() {
    let (tx, rx) = channel();
    let cancel = AtomicBool::new(false);
    let mut out = Outlet::new(&tx, &cancel);
    assert!(out.send(7));
    assert_eq!(out.count(), 1);
    drop(rx);
    assert!(!out.send(8));
    assert_eq!(out.count(), 1);
    assert!(out.is_stopped());
}
