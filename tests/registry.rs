use serial_bridge::registry::{Chunk, Registry};
use std::sync::mpsc;
use std::sync::Arc;

fn chunk(bytes: &[u8]) -> Chunk {
    Arc::new(bytes.to_vec())
}

fn drain(rx: &mpsc::Receiver<Chunk>) -> Vec<Vec<u8>> {
    rx.try_iter().map(|c| c.as_ref().clone()).collect()
}

#[test]
fn new_registry_is_empty() {
    let r = Registry::new();
    assert!(r.is_empty());
    assert_eq!(r.len(), 0);
    assert!(r.ids().is_empty());
}

#[test]
fn register_hands_out_fresh_ids_in_order() {
    let mut r = Registry::new();
    let (tx1, _rx1) = mpsc::channel();
    let (tx2, _rx2) = mpsc::channel();
    assert_eq!(r.register(tx1), Some(0));
    assert_eq!(r.register(tx2), Some(1));
    assert_eq!(r.ids(), vec![0, 1]);
    assert_eq!(r.len(), 2);
}

#[test]
fn two_clients_sequential_join() {
    let mut r = Registry::new();
    let (tx1, rx1) = mpsc::channel();
    r.register(tx1);
    assert_eq!(r.broadcast(&chunk(b"A")), vec![true]);
    let (tx2, rx2) = mpsc::channel();
    r.register(tx2);
    assert_eq!(r.broadcast(&chunk(b"B")), vec![true, true]);
    assert_eq!(drain(&rx1), vec![b"A".to_vec(), b"B".to_vec()]);
    assert_eq!(drain(&rx2), vec![b"B".to_vec()]);
}

#[test]
fn client_disconnect_mid_stream() {
    let mut r = Registry::new();
    let (tx, rx) = mpsc::channel();
    r.register(tx);
    assert_eq!(r.broadcast(&chunk(b"A")), vec![true]);
    assert_eq!(drain(&rx), vec![b"A".to_vec()]);
    drop(rx);
    assert_eq!(r.broadcast(&chunk(b"B")), vec![false]);
    assert!(r.is_empty());
    assert_eq!(r.broadcast(&chunk(b"C")), Vec::<bool>::new());
    assert!(r.is_empty());
}

#[test]
fn zero_clients_broadcast_does_nothing() {
    let mut r = Registry::new();
    for c in [b"A", b"B", b"C"] {
        assert_eq!(r.broadcast(&chunk(c)), Vec::<bool>::new());
    }
    assert!(r.is_empty());
}

#[test]
fn dead_client_is_pruned_once_and_others_stay() {
    let mut r = Registry::new();
    let (tx1, rx1) = mpsc::channel();
    let (tx2, rx2) = mpsc::channel();
    let (tx3, rx3) = mpsc::channel();
    r.register(tx1);
    r.register(tx2);
    r.register(tx3);
    drop(rx2);
    assert_eq!(r.broadcast(&chunk(b"x")), vec![true, false, true]);
    assert_eq!(r.ids(), vec![0, 2]);
    assert_eq!(r.broadcast(&chunk(b"y")), vec![true, true]);
    assert_eq!(r.ids(), vec![0, 2]);
    assert_eq!(drain(&rx1), vec![b"x".to_vec(), b"y".to_vec()]);
    assert_eq!(drain(&rx3), vec![b"x".to_vec(), b"y".to_vec()]);
}

#[test]
fn broadcast_shares_one_buffer() {
    let mut r = Registry::new();
    let (tx1, rx1) = mpsc::channel();
    let (tx2, rx2) = mpsc::channel();
    r.register(tx1);
    r.register(tx2);
    let c = chunk(b"shared");
    r.broadcast(&c);
    let a = rx1.try_recv().unwrap();
    let b = rx2.try_recv().unwrap();
    assert!(Arc::ptr_eq(&a, &c));
    assert!(Arc::ptr_eq(&b, &c));
}

#[test]
fn retain_delivered_keeps_exactly_the_successes() {
    let mut r = Registry::new();
    for _ in 0..4 {
        let (tx, _rx) = mpsc::channel();
        r.register(tx);
    }
    r.retain_delivered(&vec![false, true, false, true]);
    assert_eq!(r.ids(), vec![1, 3]);
    r.retain_delivered(&vec![false, false]);
    assert!(r.is_empty());
}

#[test]
fn per_client_order_is_kept() {
    let mut r = Registry::new();
    let (tx, rx) = mpsc::channel();
    r.register(tx);
    let produced: Vec<Vec<u8>> = (0u8..20).map(|i| vec![i, i + 1]).collect();
    for p in &produced {
        r.broadcast(&Arc::new(p.clone()));
    }
    assert_eq!(drain(&rx), produced);
}

#[test]
fn broadcast_enqueues_on_every_live_channel() {
    let mut r = Registry::new();
    let (tx, rx) = mpsc::channel();
    r.register(tx);
    assert!(rx.try_recv().is_err());
    r.broadcast(&chunk(b"hello"));
    assert_eq!(rx.try_recv().unwrap().as_slice(), b"hello");
    assert!(rx.try_recv().is_err());
}
