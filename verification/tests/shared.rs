use std::sync::{Arc, Mutex};

use serial::shared::{lock, lock_line, Wire};
use serial::SerialTransport;

#[test]
fn a_lock_gives_what_the_mutex_holds() {
    let mutex = Mutex::new(7);
    *lock(&mutex) += 1;
    assert_eq!(*lock(&mutex), 8);
}

#[test]
fn two_ends_share_one_wire() {
    let near: Wire = Arc::new(Mutex::new(Vec::new()));
    let far: Wire = Arc::clone(&near);
    let transport = SerialTransport::loopback();
    transport
        .write_line(&mut lock_line(&near), b"hello")
        .expect("written");
    let arrived = transport.read_line(&mut lock_line(&far)).expect("read");
    assert_eq!(arrived.bytes, b"hello");
    assert!(lock_line(&near).is_empty());
}
