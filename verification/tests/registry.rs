use relay::registry::{Eviction, Registry};

#[test]
fn connect_assigns_monotonic_ids_from_one() {
    let mut reg = Registry::new();
    assert_eq!(reg.connect(), 1);
    assert_eq!(reg.connect(), 2);
    assert_eq!(reg.connect(), 3);
    assert_eq!(reg.count(), 3);
    assert!(reg.contains(1));
    assert!(reg.contains(2));
    assert!(reg.contains(3));
    assert!(!reg.contains(4));
}

#[test]
fn ids_are_never_reused_after_disconnect() {
    let mut reg = Registry::new();
    let a = reg.connect();
    let b = reg.connect();
    reg.disconnect(a);
    let c = reg.connect();
    assert_eq!(a, 1);
    assert_eq!(b, 2);
    assert_eq!(c, 3);
    assert!(!reg.contains(a));
}

#[test]
fn broadcast_reaches_all_including_sender() {
    let mut reg = Registry::new();
    let a = reg.connect();
    let b = reg.connect();
    let c = reg.connect();
    // a is the sender; the design echoes the payload back to the sender
    // as well, since every registered queue receives it.
    reg.broadcast(&b"hello".to_vec());
    assert_eq!(reg.pop_next(a), Some(b"hello".to_vec()));
    assert_eq!(reg.pop_next(b), Some(b"hello".to_vec()));
    assert_eq!(reg.pop_next(c), Some(b"hello".to_vec()));
    assert_eq!(reg.pop_next(a), None);
}

#[test]
fn no_delivery_after_disconnect() {
    let mut reg = Registry::new();
    let a = reg.connect();
    let b = reg.connect();
    reg.disconnect(b);
    reg.broadcast(&b"late".to_vec());
    assert_eq!(reg.pop_next(a), Some(b"late".to_vec()));
    assert_eq!(reg.pop_next(b), None);
    assert!(!reg.contains(b));
}

#[test]
fn delivery_is_fifo_per_recipient() {
    let mut reg = Registry::new();
    let a = reg.connect();
    let b = reg.connect();
    reg.broadcast(&b"m1".to_vec());
    reg.broadcast(&b"m2".to_vec());
    assert_eq!(reg.pop_next(b), Some(b"m1".to_vec()));
    assert_eq!(reg.pop_next(b), Some(b"m2".to_vec()));
    assert_eq!(reg.pop_next(b), None);
    assert_eq!(reg.pop_next(a), Some(b"m1".to_vec()));
    assert_eq!(reg.pop_next(a), Some(b"m2".to_vec()));
}

#[test]
fn force_disconnect_is_idempotent_success() {
    let mut reg = Registry::new();
    let a = reg.connect();
    let b = reg.connect();
    assert_eq!(reg.force_disconnect(b), Eviction::Removed);
    assert!(!reg.contains(b));
    // Evicting an already-gone target is a success, not an error.
    assert_eq!(reg.force_disconnect(b), Eviction::AlreadyGone);
    assert_eq!(reg.count(), 1);
    assert!(reg.contains(a));
}

#[test]
fn remove_of_absent_id_is_a_noop() {
    let mut reg = Registry::new();
    let a = reg.connect();
    reg.broadcast(&b"x".to_vec());
    reg.remove(77);
    assert_eq!(reg.count(), 1);
    assert_eq!(reg.pop_next(a), Some(b"x".to_vec()));
}

#[test]
fn pop_next_on_empty_queue_is_none() {
    let mut reg = Registry::new();
    let a = reg.connect();
    assert_eq!(reg.pop_next(a), None);
    assert_eq!(reg.pop_next(99), None);
}
