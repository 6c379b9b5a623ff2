use paxoskv::cluster::{Cluster, ClusterInfo};
use paxoskv::keys::term_key;
use paxoskv::kv::{KvError, Paxoskv};
use paxoskv::proposer::Proposer;
use paxoskv::store::Persistor;

const ROUNDS: usize = 16;
const SLOTS: usize = 32;

fn fresh_cluster(n: usize) -> Cluster {
    Cluster::new(&ClusterInfo { acceptor_count: n, fault_permille: 0, fault_seed: 0 })
}

#[test]
fn test_new() {
    let kv = Paxoskv::new(1);
    assert!(kv.get_local(&b"anything".to_vec()).is_none());
}

#[test]
fn set_then_read() {
    let mut cluster = fresh_cluster(3);
    let mut kv = Paxoskv::new(0);
    kv.set(&mut cluster, 1, b"k".to_vec(), b"v".to_vec(), ROUNDS, SLOTS).unwrap();
    assert_eq!(kv.get_local(&b"k".to_vec()), Some(b"v".to_vec()));
    assert_eq!(kv.get(&mut cluster, &b"k".to_vec(), ROUNDS, SLOTS).unwrap(), Some(b"v".to_vec()));
}

#[test]
fn kv_dedup() {
    // a retried command id is a no-op after the first success, however often
    let mut cluster = fresh_cluster(3);
    let mut kv = Paxoskv::new(0);
    kv.set(&mut cluster, 5, b"k".to_vec(), b"v1".to_vec(), ROUNDS, SLOTS).unwrap();
    kv.set(&mut cluster, 5, b"k".to_vec(), b"v2".to_vec(), ROUNDS, SLOTS).unwrap();
    kv.set(&mut cluster, 5, b"k".to_vec(), b"v3".to_vec(), ROUNDS, SLOTS).unwrap();
    assert_eq!(kv.get_local(&b"k".to_vec()), Some(b"v1".to_vec()));
}

#[test]
fn remove_after_set() {
    let mut cluster = fresh_cluster(3);
    let mut kv = Paxoskv::new(0);
    kv.set(&mut cluster, 1, b"k".to_vec(), b"v".to_vec(), ROUNDS, SLOTS).unwrap();
    kv.remove(&mut cluster, 2, b"k".to_vec(), ROUNDS, SLOTS).unwrap();
    assert_eq!(kv.get_local(&b"k".to_vec()), None);
    assert_eq!(kv.get(&mut cluster, &b"k".to_vec(), ROUNDS, SLOTS).unwrap(), None);
}

#[test]
fn test_set_and_get() {
    // several nodes sharing one acceptor cluster set distinct keys; after
    // every node has read (and so walked every contested slot), all local
    // stores agree on every touched key
    let mut cluster = fresh_cluster(10);
    let mut nodes: Vec<Paxoskv> = (0..10u32).map(Paxoskv::new).collect();

    for (i, node) in nodes.iter_mut().enumerate() {
        let key = format!("key-{}", i).into_bytes();
        let value = format!("value-{}", i).into_bytes();
        node.set(&mut cluster, i as u64, key, value, ROUNDS, SLOTS).unwrap();
    }
    // a read barrier on each node forces it through every decided slot
    for node in nodes.iter_mut() {
        node.get(&mut cluster, &b"key-0".to_vec(), ROUNDS, SLOTS).unwrap();
    }
    for i in 0..10usize {
        let key = format!("key-{}", i).into_bytes();
        let expected = Some(format!("value-{}", i).into_bytes());
        for node in nodes.iter() {
            assert_eq!(node.get_local(&key), expected);
        }
    }
}

#[test]
fn linearizable_read_sees_other_nodes_write() {
    let mut cluster = fresh_cluster(3);
    let mut a = Paxoskv::new(0);
    let mut b = Paxoskv::new(1);
    a.set(&mut cluster, 1, b"k".to_vec(), b"from-a".to_vec(), ROUNDS, SLOTS).unwrap();
    // node b has not walked the log yet: its local read may be stale
    assert_eq!(b.get_local(&b"k".to_vec()), None);
    // the read barrier orders b's read after a's write
    assert_eq!(b.get(&mut cluster, &b"k".to_vec(), ROUNDS, SLOTS).unwrap(), Some(b"from-a".to_vec()));
}

#[test]
fn unresolved_when_budget_spent() {
    let mut cluster = fresh_cluster(3);
    let mut kv = Paxoskv::new(0);
    let r = kv.set(&mut cluster, 1, b"k".to_vec(), b"v".to_vec(), ROUNDS, 0);
    assert_eq!(r, Err(KvError::Unresolved));
}

#[test]
fn corrupt_decided_value_is_reported() {
    // a garbage value chosen for the node's next slot surfaces as corruption
    let mut cluster = fresh_cluster(3);
    let mut rogue = Proposer::new(9);
    let decided = cluster.choose_value(&mut rogue, 1, &vec![1, 2, 3], ROUNDS);
    assert_eq!(decided, Some(vec![1, 2, 3]));
    let mut kv = Paxoskv::new(0);
    let r = kv.set(&mut cluster, 1, b"k".to_vec(), b"v".to_vec(), ROUNDS, SLOTS);
    assert_eq!(r, Err(KvError::Corrupt));
}

#[test]
fn corrupt_term_entry_is_reported() {
    let mut store = Persistor::new();
    store.set(term_key(), vec![9, 9]);
    assert_eq!(Paxoskv::from_persistor(0, store).err(), Some(KvError::Corrupt));
}

#[test]
fn node_snapshot_round_trip() {
    let mut cluster = fresh_cluster(3);
    let mut kv = Paxoskv::new(0);
    kv.set(&mut cluster, 1, b"k".to_vec(), b"v".to_vec(), ROUNDS, SLOTS).unwrap();
    let snapshot = kv.dump();
    let kv2 = Paxoskv::from_persistor(0, Persistor::from_entries(&snapshot)).unwrap();
    assert_eq!(kv2.get_local(&b"k".to_vec()), Some(b"v".to_vec()));
    // the reloaded node still deduplicates the old command id
    let mut kv2 = kv2;
    kv2.set(&mut cluster, 1, b"k".to_vec(), b"other".to_vec(), ROUNDS, SLOTS).unwrap();
    assert_eq!(kv2.get_local(&b"k".to_vec()), Some(b"v".to_vec()));
}
