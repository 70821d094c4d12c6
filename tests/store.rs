use circuit_consensus::entries::StateChange;
use circuit_consensus::merkle::{compute_root, MerkleState, StoreError};

fn hex(b: &[u8]) -> String {
    b.iter().map(|x| format!("{:02x}", x)).collect()
}

fn put(k: &str, v: &str) -> StateChange {
    StateChange::Put { key: k.as_bytes().to_vec(), value: v.as_bytes().to_vec() }
}

fn del(k: &str) -> StateChange {
    StateChange::Delete { key: k.as_bytes().to_vec() }
}

fn entry(k: &str, v: &str) -> (Vec<u8>, Vec<u8>) {
    (k.as_bytes().to_vec(), v.as_bytes().to_vec())
}

#[test]
fn empty_store_root_is_sha512_of_nothing() {
    let store = MerkleState::new();
    assert_eq!(
        hex(&store.get_state_root()),
        "cf83e1357eefb8bdf1542850d66d8007d620e4050b5715dc83f4a921d36ce9ce\
         47d0d13c5d85f2b0ff8318d2877eec2f63b931bd47417a81a538327af927da3e"
    );
    assert!(!store.has_tree());
}

#[test]
fn root_is_digest_of_length_prefixed_entries() {
    // one entry "a" -> "b": 8-byte length, key, 8-byte length, value
    let root = compute_root(&vec![entry("a", "b")]);
    assert_eq!(root.len(), 64);
    assert_ne!(root, compute_root(&vec![]));
    assert_ne!(root, compute_root(&vec![entry("a", "c")]));
    assert_ne!(root, compute_root(&vec![entry("ab", "")]));
}

#[test]
fn empty_batch_is_a_no_op() {
    let mut store = MerkleState::new();
    let r0 = store.get_state_root();
    let r1 = store.commit(&r0, &vec![put("k", "v")]).unwrap();
    let r2 = store.commit(&r1, &vec![]).unwrap();
    assert_eq!(r1, r2);
    let r3 = store.commit(&r0, &vec![]).unwrap();
    assert_eq!(r0, r3);
}

#[test]
fn commit_round_trip_last_write_wins() {
    let mut store = MerkleState::new();
    let r0 = store.get_state_root();
    let r1 = store.commit(&r0, &vec![put("a", "1"), put("b", "2"), put("c", "3")]).unwrap();
    let batch = vec![put("a", "x"), del("b"), put("a", "y"), put("d", "4"), del("d"), put("e", "5")];
    let r2 = store.commit(&r1, &batch).unwrap();
    assert_eq!(store.get_state_root(), r2);
    let all = store.filter_iter(&r2, None).unwrap();
    assert_eq!(all, vec![entry("a", "y"), entry("c", "3"), entry("e", "5")]);
    // the earlier snapshot is still readable
    let before = store.filter_iter(&r1, None).unwrap();
    assert_eq!(before, vec![entry("a", "1"), entry("b", "2"), entry("c", "3")]);
}

#[test]
fn keys_are_kept_in_byte_order() {
    let mut store = MerkleState::new();
    let r0 = store.get_state_root();
    let r = store.commit(&r0, &vec![put("b", "1"), put("ab", "2"), put("a", "3"), put("", "4")]).unwrap();
    let all = store.filter_iter(&r, None).unwrap();
    assert_eq!(all, vec![entry("", "4"), entry("a", "3"), entry("ab", "2"), entry("b", "1")]);
}

#[test]
fn same_contents_same_root() {
    let mut s1 = MerkleState::new();
    let mut s2 = MerkleState::new();
    let a = s1.get_state_root();
    let b = s2.get_state_root();
    let r1 = s1.commit(&a, &vec![put("x", "1"), put("y", "2")]).unwrap();
    let r2 = s2.commit(&b, &vec![put("y", "0"), put("x", "1"), put("z", "9"), del("z"), put("y", "2")]).unwrap();
    assert_eq!(r1, r2);
}

#[test]
fn filter_by_prefix() {
    let mut store = MerkleState::new();
    let r0 = store.get_state_root();
    let r = store.commit(&r0, &vec![put("ab1", "1"), put("ab2", "2"), put("b", "3"), put("a", "4")]).unwrap();
    let p = b"ab".to_vec();
    let got = store.filter_iter(&r, Some(&p)).unwrap();
    assert_eq!(got, vec![entry("ab1", "1"), entry("ab2", "2")]);
}

#[test]
fn unknown_root_is_an_error() {
    let mut store = MerkleState::new();
    let bogus = vec![7u8; 64];
    assert_eq!(store.commit(&bogus, &vec![put("a", "1")]), Err(StoreError::UnknownRoot));
    assert_eq!(store.filter_iter(&bogus, None), Err(StoreError::UnknownRoot));
}

#[test]
fn prune_is_idempotent_and_spares_the_head() {
    let mut store = MerkleState::new();
    let r0 = store.get_state_root();
    let r1 = store.commit(&r0, &vec![put("a", "1")]).unwrap();
    store.prune(&vec![r0.clone()]);
    assert_eq!(store.filter_iter(&r0, None), Err(StoreError::UnknownRoot));
    store.prune(&vec![r0.clone()]);
    store.prune(&vec![r0.clone(), r1.clone()]);
    assert_eq!(store.get_state_root(), r1);
    assert_eq!(store.filter_iter(&r1, None).unwrap(), vec![entry("a", "1")]);
    store.remove_pruned_entries();
    store.remove_pruned_entries();
    assert_eq!(store.get_state_root(), r1);
    assert_eq!(store.filter_iter(&r1, None).unwrap(), vec![entry("a", "1")]);
}

#[test]
fn delete_tree_leaves_only_the_empty_snapshot() {
    let mut store = MerkleState::new();
    let r0 = store.get_state_root();
    let r1 = store.commit(&r0, &vec![put("a", "1")]).unwrap();
    assert!(store.has_tree());
    store.delete_tree();
    assert!(!store.has_tree());
    assert_eq!(store.get_state_root(), r0);
    assert_eq!(store.filter_iter(&r1, None), Err(StoreError::UnknownRoot));
}
