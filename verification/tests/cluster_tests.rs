use paxoskv::cluster::{Cluster, ClusterInfo};
use paxoskv::proposer::{majority, select_value, Proposer};
use paxoskv::proposal::Proposal;

const KEY: u64 = 1;

fn value_of(i: u32) -> Vec<u8> {
    format!("p[{}]={}", i, i * 1000 + 17).into_bytes()
}

#[test]
fn majority_thresholds() {
    assert_eq!(majority(1), 1);
    assert_eq!(majority(2), 2);
    assert_eq!(majority(3), 2);
    assert_eq!(majority(10), 6);
}

#[test]
fn select_value_picks_highest_ballot() {
    let fallback = b"mine".to_vec();
    assert_eq!(select_value(&Vec::new(), &fallback), fallback);
    let responses = vec![
        Proposal { id: 3, value: b"a".to_vec() },
        Proposal { id: 9, value: b"b".to_vec() },
        Proposal { id: 5, value: b"c".to_vec() },
    ];
    assert_eq!(select_value(&responses, &fallback), b"b".to_vec());
}

#[test]
fn single_round_chooses_own_value() {
    let info = ClusterInfo { acceptor_count: 1, fault_permille: 0, fault_seed: 0 };
    let mut cluster = Cluster::new(&info);
    let mut p = Proposer::new(0);
    let got = cluster.run_round(&mut p, KEY, &b"v".to_vec());
    assert_eq!(got, Some(b"v".to_vec()));
}

#[test]
fn test_single_key() {
    // ten acceptors, ten proposers, each proposing its own value for one
    // slot: every call that returns must return the identical value
    let info = ClusterInfo { acceptor_count: 10, fault_permille: 0, fault_seed: 0 };
    let mut cluster = Cluster::new(&info);
    let mut agreed: Option<Vec<u8>> = None;
    for i in 0..10u32 {
        let mut p = Proposer::new(i);
        let got = cluster
            .choose_value(&mut p, KEY, &value_of(i), 16)
            .expect("a fault-free cluster decides within the budget");
        if let Some(prev) = &agreed {
            assert_eq!(prev, &got);
        } else {
            agreed = Some(got);
        }
    }
    assert!(agreed.is_some());
}

#[test]
fn convergence_under_faults() {
    // with each acceptor call failing around 8% of the time, repeated calls
    // still converge to one agreed value; it only takes more rounds
    let info = ClusterInfo { acceptor_count: 10, fault_permille: 80, fault_seed: 7 };
    let mut cluster = Cluster::new(&info);
    let mut agreed: Option<Vec<u8>> = None;
    for i in 0..10u32 {
        let mut p = Proposer::new(i);
        let mut got: Option<Vec<u8>> = None;
        for _attempt in 0..50 {
            got = cluster.choose_value(&mut p, KEY, &value_of(i), 16);
            if got.is_some() {
                break;
            }
        }
        let got = got.expect("the cluster decides despite injected faults");
        if let Some(prev) = &agreed {
            assert_eq!(prev, &got);
        } else {
            agreed = Some(got);
        }
    }
}

#[test]
fn slots_decide_independently() {
    let info = ClusterInfo { acceptor_count: 3, fault_permille: 0, fault_seed: 0 };
    let mut cluster = Cluster::new(&info);
    let mut p = Proposer::new(0);
    let a = cluster.choose_value(&mut p, 1, &b"one".to_vec(), 8).unwrap();
    let b = cluster.choose_value(&mut p, 2, &b"two".to_vec(), 8).unwrap();
    assert_eq!(a, b"one".to_vec());
    assert_eq!(b, b"two".to_vec());
    // a later contender for slot 1 learns the chosen value
    let mut q = Proposer::new(1);
    let c = cluster.choose_value(&mut q, 1, &b"other".to_vec(), 8).unwrap();
    assert_eq!(c, b"one".to_vec());
}
