use relay::registry::Registry;
use relay::session::{handle_frame, Inbound, Outcome};

// Many connections, interleaved joins, sends and leaves: nothing is
// lost while a recipient stays registered, and every queue drains in
// exactly the order the payloads were enqueued.

#[test]
fn hundred_connections_hundred_messages_each_all_delivered() {
    let mut reg = Registry::new();
    let n: usize = 100;
    let per: usize = 100;
    let ids: Vec<u64> = (0..n).map(|_| reg.connect()).collect();
    for round in 0..per {
        for (k, &id) in ids.iter().enumerate() {
            let payload = format!("{}:{}", k, round).into_bytes();
            let r = handle_frame(&mut reg, id, Inbound::Text(payload));
            assert_eq!(r, Outcome::Broadcast);
        }
    }
    // Every one of the n recipients holds all n * per payloads.
    for &id in &ids {
        assert_eq!(reg.queue_len(id), Some(n * per));
    }
    // Two of them — the first and the last to join — are drained fully:
    // the payloads come out in exactly the order they were enqueued.
    for &id in [ids[0], ids[n - 1]].iter() {
        for round in 0..per {
            for k in 0..n {
                let expected = format!("{}:{}", k, round).into_bytes();
                assert_eq!(reg.pop_next(id), Some(expected));
            }
        }
        assert_eq!(reg.pop_next(id), None);
    }
}

#[test]
fn interleaved_connect_disconnect_broadcast_stays_consistent() {
    let mut reg = Registry::new();
    let a = reg.connect();
    let b = reg.connect();
    reg.broadcast(&b"one".to_vec());
    let c = reg.connect();
    reg.disconnect(b);
    reg.broadcast(&b"two".to_vec());
    let d = reg.connect();
    reg.broadcast(&b"three".to_vec());
    // a saw everything.
    assert_eq!(reg.pop_next(a), Some(b"one".to_vec()));
    assert_eq!(reg.pop_next(a), Some(b"two".to_vec()));
    assert_eq!(reg.pop_next(a), Some(b"three".to_vec()));
    // b was torn down after "one" was queued; nothing reaches it since.
    assert_eq!(reg.pop_next(b), None);
    // c joined after "one", d only before "three".
    assert_eq!(reg.pop_next(c), Some(b"two".to_vec()));
    assert_eq!(reg.pop_next(c), Some(b"three".to_vec()));
    assert_eq!(reg.pop_next(d), Some(b"three".to_vec()));
    assert_eq!(reg.pop_next(d), None);
    assert_eq!(reg.count(), 3);
}
