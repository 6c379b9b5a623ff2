use paxoskv::ballot::pack_pid;
use paxoskv::codec::{decode_proposal, decode_u64, encode_proposal, encode_u64};
use paxoskv::keys::{cmd_key, slot_accepted_key, slot_pid_key, term_key, user_key_of};
use paxoskv::kv::{decode_entry, encode_entry, LogEntry, Operation};
use paxoskv::proposal::Proposal;

#[test]
fn u64_codec_exact() {
    let bytes = encode_u64(0x0102_0304_0506_0708);
    assert_eq!(bytes, vec![8, 7, 6, 5, 4, 3, 2, 1]);
    assert_eq!(decode_u64(&bytes), Some(0x0102_0304_0506_0708));
    assert_eq!(decode_u64(b"1234567"), None);
    assert_eq!(decode_u64(b"123456789"), None);
}

#[test]
fn proposal_codec_round_trip() {
    let p = Proposal { id: 7, value: b"x".to_vec() };
    let bytes = encode_proposal(&p);
    assert_eq!(bytes, vec![7, 0, 0, 0, 0, 0, 0, 0, b'x']);
    let q = decode_proposal(&bytes).unwrap();
    assert_eq!(q.id, 7);
    assert_eq!(q.value, b"x".to_vec());
    assert!(decode_proposal(b"short").is_none());
}

#[test]
fn entry_codec_round_trip() {
    let cases = vec![
        LogEntry { id: 1, op: Operation::Get { key: b"k".to_vec() } },
        LogEntry { id: 2, op: Operation::Put { key: b"key".to_vec(), value: b"value".to_vec() } },
        LogEntry { id: 3, op: Operation::Remove { key: b"".to_vec() } },
    ];
    for e in &cases {
        let bytes = encode_entry(e);
        let d = decode_entry(&bytes).unwrap();
        assert_eq!(d.id, e.id);
        match (&d.op, &e.op) {
            (Operation::Get { key: a }, Operation::Get { key: b }) => assert_eq!(a, b),
            (
                Operation::Put { key: a, value: av },
                Operation::Put { key: b, value: bv },
            ) => {
                assert_eq!(a, b);
                assert_eq!(av, bv);
            },
            (Operation::Remove { key: a }, Operation::Remove { key: b }) => assert_eq!(a, b),
            _ => panic!("operation kind changed in the round trip"),
        }
    }
}

#[test]
fn entry_codec_exact_and_malformed() {
    let e = LogEntry { id: 5, op: Operation::Put { key: b"ab".to_vec(), value: b"c".to_vec() } };
    let bytes = encode_entry(&e);
    assert_eq!(
        bytes,
        vec![5, 0, 0, 0, 0, 0, 0, 0, 1, 2, 0, 0, 0, 0, 0, 0, 0, b'a', b'b', b'c']
    );
    assert!(decode_entry(b"12345678").is_none());
    // a bad operation tag
    assert!(decode_entry(&[0, 0, 0, 0, 0, 0, 0, 0, 9]).is_none());
    // a put whose key length runs past the buffer
    assert!(
        decode_entry(&[0, 0, 0, 0, 0, 0, 0, 0, 1, 200, 0, 0, 0, 0, 0, 0, 0, b'a']).is_none()
    );
}

#[test]
fn store_keys_disjoint() {
    assert_eq!(user_key_of(b"k"), vec![0, b'k']);
    assert_eq!(term_key(), vec![1]);
    let keys = vec![
        user_key_of(b"k"),
        term_key(),
        cmd_key(7),
        slot_pid_key(7),
        slot_accepted_key(7),
        cmd_key(8),
    ];
    for i in 0..keys.len() {
        for j in 0..keys.len() {
            if i != j {
                assert_ne!(keys[i], keys[j]);
            }
        }
    }
}

#[test]
fn ballot_packing_exact() {
    assert_eq!(pack_pid(1, 2), 0x1_0000_0002);
    assert_eq!(pack_pid(2, 0), 0x2_0000_0000);
    assert!(pack_pid(2, 0) > pack_pid(1, u32::MAX));
}
