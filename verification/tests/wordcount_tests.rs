use paxoskv::wordcount::{decimal_digits, reduce};

#[test]
fn map_splits_on_whitespace() {
    let pairs = paxoskv::wordcount::map(&b"hello world  hello\n\tagain".to_vec());
    let words: Vec<Vec<u8>> = pairs.iter().map(|p| p.0.clone()).collect();
    assert_eq!(
        words,
        vec![b"hello".to_vec(), b"world".to_vec(), b"hello".to_vec(), b"again".to_vec()]
    );
    for p in &pairs {
        assert_eq!(p.1, b"1".to_vec());
    }
}

#[test]
fn map_edge_cases() {
    assert!(paxoskv::wordcount::map(&Vec::new()).is_empty());
    assert!(paxoskv::wordcount::map(&b"  \n\t ".to_vec()).is_empty());
    let pairs = paxoskv::wordcount::map(&b"one".to_vec());
    assert_eq!(pairs.len(), 1);
    assert_eq!(pairs[0].0, b"one".to_vec());
}

#[test]
fn reduce_counts_values() {
    let values = vec![b"1".to_vec(), b"1".to_vec(), b"1".to_vec()];
    assert_eq!(reduce(&b"word".to_vec(), &values), b"3".to_vec());
    assert_eq!(reduce(&b"word".to_vec(), &Vec::new()), b"0".to_vec());
}

#[test]
fn decimal_rendering_exact() {
    assert_eq!(decimal_digits(0), b"0".to_vec());
    assert_eq!(decimal_digits(9), b"9".to_vec());
    assert_eq!(decimal_digits(10), b"10".to_vec());
    assert_eq!(decimal_digits(120), b"120".to_vec());
    assert_eq!(decimal_digits(98765), b"98765".to_vec());
}
