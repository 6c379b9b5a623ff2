use paxoskv::acceptor::{Acceptor, AcceptorError};
use paxoskv::keys::slot_pid_key;
use paxoskv::faults::Faults;

const KEY: u64 = 1;

#[test]
fn promise_monotonicity() {
    // prepare(key, 5) then prepare(key, 3) leaves the stored promise at 5:
    // a subsequent accept(key, 3, v) answers 5, not 3, so it failed
    let mut a = Acceptor::new();
    assert!(a.prepare(KEY, 5).unwrap().is_none());
    assert!(a.prepare(KEY, 3).unwrap().is_none());
    let answered = a.accept(KEY, 3, b"v".to_vec()).unwrap();
    assert_eq!(answered, 5);
    assert_ne!(answered, 3);
    // nothing was accepted
    assert!(a.prepare(KEY, 6).unwrap().is_none());
}

#[test]
fn accept_requires_current_promise() {
    // prepare(key, 7) then accept(key, 7, "x") succeeds; a second accept at
    // the same ballot also succeeds and overwrites the value to "y"
    let mut a = Acceptor::new();
    assert!(a.prepare(KEY, 7).unwrap().is_none());
    assert_eq!(a.accept(KEY, 7, b"x".to_vec()).unwrap(), 7);
    assert_eq!(a.accept(KEY, 7, b"y".to_vec()).unwrap(), 7);
    let learned = a.prepare(KEY, 8).unwrap().expect("a proposal was accepted");
    assert_eq!(learned.id, 7);
    assert_eq!(learned.value, b"y".to_vec());
}

#[test]
fn slots_are_independent() {
    let mut a = Acceptor::new();
    a.prepare(1, 10).unwrap();
    a.prepare(2, 3).unwrap();
    assert_eq!(a.accept(2, 3, b"two".to_vec()).unwrap(), 3);
    // slot 1's promise is untouched by slot 2's accept
    assert_eq!(a.accept(1, 10, b"one".to_vec()).unwrap(), 10);
    let p1 = a.prepare(1, 11).unwrap().unwrap();
    let p2 = a.prepare(2, 11).unwrap().unwrap();
    assert_eq!(p1.value, b"one".to_vec());
    assert_eq!(p2.value, b"two".to_vec());
}

#[test]
fn acceptor_snapshot_round_trip() {
    let mut a = Acceptor::new();
    a.prepare(KEY, 7).unwrap();
    a.accept(KEY, 7, b"x".to_vec()).unwrap();
    let snapshot = a.dump();
    let mut b = Acceptor::from_entries(&snapshot);
    // the reloaded acceptor still holds the promise and the accepted value
    let learned = b.prepare(KEY, 9).unwrap().unwrap();
    assert_eq!(learned.id, 7);
    assert_eq!(learned.value, b"x".to_vec());
    assert_eq!(b.accept(KEY, 9, b"z".to_vec()).unwrap(), 9);
}

#[test]
fn faults_always_trip_at_full_rate() {
    // a strategy at the full rate fails every call before it touches state;
    // this would not hold if the draw were not below its bound
    let mut a = Acceptor::with_faults(Faults::with_rate(1000, 42));
    for _ in 0..20 {
        assert_eq!(a.prepare(KEY, 5), Err(AcceptorError::Unavailable));
    }
}

#[test]
fn corrupt_promise_entry_is_reported() {
    // a promise entry of the wrong width does not decode: the acceptor
    // reports corruption instead of hiding it
    let entries = vec![(slot_pid_key(KEY), vec![1, 2, 3])];
    let mut a = Acceptor::from_entries(&entries);
    assert_eq!(a.prepare(KEY, 5), Err(AcceptorError::Corrupt));
}

#[test]
fn faults_never_trip_when_disabled() {
    let mut a = Acceptor::with_faults(Faults::off());
    for pid in 1..20u64 {
        assert!(a.prepare(KEY, pid).is_ok());
    }
}
