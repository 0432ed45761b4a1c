use grug_core::bytes::{from_high_half, from_low_half, to_sized, truncate, LengthError};
use grug_core::db::{prove_key, root_of};
use grug_core::merkle::{verify_absence, hash_internal_node, hash_leaf_node, sha256, verify_proof, zero_hash_vec, Child, InternalNode, LeafNode, Node};
use grug_core::store::{Batch, Buffer, MemStore};
use grug_core::gas::{GasError, GasTracker, LinearGasCost};

fn store_with(keys: &[(&[u8], &[u8])]) -> MemStore {
    let mut s = MemStore::new();
    for (k, v) in keys {
        s.insert(k.to_vec(), v.to_vec());
    }
    s
}

#[test]
fn dropped_buffer_leaves_base_unchanged() {
    let base = store_with(&[(b"a", b"1"), (b"b", b"2")]);
    let before = base.duplicate();
    {
        let mut buf = Buffer::new(&base);
        for i in 0..10u8 {
            buf.write(vec![b'k', i], vec![i]);
        }
        buf.remove(b"a".to_vec());
        assert_eq!(buf.get(&b"a".to_vec()), None);
        assert_eq!(buf.get(&vec![b'k', 3]), Some(vec![3]));
        assert_eq!(buf.get(&b"b".to_vec()), Some(b"2".to_vec()));
    }
    assert_eq!(base.len(), 2);
    assert_eq!(base.get(&b"a".to_vec()), before.get(&b"a".to_vec()));
    assert_eq!(base.get(&b"b".to_vec()), Some(b"2".to_vec()));
    assert_eq!(base.get(&vec![b'k', 3]), None);
}

#[test]
fn nested_scopes_commit_and_discard() {
    let base = store_with(&[(b"x", b"0")]);
    let mut buf = Buffer::new(&base);
    buf.open_scope();
    buf.write(b"x".to_vec(), b"1".to_vec());
    buf.open_scope();
    buf.write(b"x".to_vec(), b"2".to_vec());
    buf.write(b"y".to_vec(), b"2".to_vec());
    buf.discard_scope();
    assert_eq!(buf.get(&b"x".to_vec()), Some(b"1".to_vec()));
    assert_eq!(buf.get(&b"y".to_vec()), None);
    buf.commit_scope();
    let (_, batch) = buf.disassemble();
    let mut flushed = base.duplicate();
    flushed.flush(batch);
    assert_eq!(flushed.get(&b"x".to_vec()), Some(b"1".to_vec()));
    assert_eq!(base.get(&b"x".to_vec()), Some(b"0".to_vec()));
}

#[test]
fn later_writes_shadow_earlier_ones() {
    let mut batch = Batch::new();
    batch.put(b"k".to_vec(), b"1".to_vec());
    batch.delete(b"k".to_vec());
    batch.put(b"k".to_vec(), b"3".to_vec());
    batch.delete(b"gone".to_vec());
    assert_eq!(batch.len(), 4);
    let mut s = store_with(&[(b"gone", b"x")]);
    s.flush(batch);
    assert_eq!(s.get(&b"k".to_vec()), Some(b"3".to_vec()));
    assert_eq!(s.get(&b"gone".to_vec()), None);
}

#[test]
fn merkle_proof_round_trip() {
    let s = store_with(&[(b"alpha", b"1"), (b"beta", b"2"), (b"gamma", b"3"), (b"delta", b"4")]);
    let root = root_of(&s).unwrap();
    for (k, v) in [(b"alpha".as_ref(), b"1".as_ref()), (b"gamma", b"3"), (b"delta", b"4")] {
        let proof = prove_key(&s, &k.to_vec());
        let kh = sha256(&k.to_vec());
        let vh = sha256(&v.to_vec());
        assert!(verify_proof(&proof, &root, &kh, &vh));
        let mut wrong = root.clone();
        wrong[0] ^= 1;
        assert!(!verify_proof(&proof, &wrong, &kh, &vh));
        assert!(!verify_proof(&proof, &root, &kh, &sha256(&b"other".to_vec())));
    }
    // The root does not depend on the order of insertion.
    let t = store_with(&[(b"delta", b"4"), (b"gamma", b"3"), (b"beta", b"2"), (b"alpha", b"1")]);
    assert_eq!(root_of(&t).unwrap(), root);
    assert!(root_of(&MemStore::new()).is_none());
}

#[test]
fn node_hashes_are_tagged() {
    let k = sha256(&b"k".to_vec());
    let v = sha256(&b"v".to_vec());
    let leaf = Node::Leaf(LeafNode { key_hash: k.clone(), value_hash: v.clone() });
    let mut data = vec![1u8];
    data.extend_from_slice(&k);
    data.extend_from_slice(&v);
    assert_eq!(leaf.hash(), sha256(&data));
    assert!(leaf.is_leaf());
    let internal = Node::Internal(InternalNode { left_child: Some(Child { version: 3, hash: k.clone() }), right_child: None });
    let mut data = vec![0u8];
    data.extend_from_slice(&k);
    data.extend_from_slice(&zero_hash_vec());
    assert_eq!(internal.hash(), sha256(&data));
    assert_eq!(internal.hash(), hash_internal_node(Some(&k), None));
    assert_ne!(hash_leaf_node(&k, &v), hash_internal_node(Some(&k), Some(&v)));
    assert_eq!(zero_hash_vec(), vec![0u8; 32]);
}

#[test]
fn gas_tracker_limits() {
    let mut g = GasTracker::new_limited(100);
    assert_eq!(g.consume(60), Ok(()));
    assert_eq!(g.remaining(), Some(40));
    assert_eq!(g.consume(50), Err(GasError::OutOfGas { limit: 100, used: 110 }));
    assert_eq!(g.used(), 110);
    assert_eq!(g.remaining(), Some(0));
    let mut l = GasTracker::new_limitless();
    assert_eq!(l.consume(u64::MAX), Ok(()));
    assert_eq!(l.consume(5), Ok(()));
    assert_eq!(l.used(), u64::MAX);
    assert_eq!(l.limit(), None);
    let c = LinearGasCost::new(1_340_000, 188_000);
    assert_eq!(c.cost(3), 1_340_000 + 3 * 188_000);
    assert_eq!(LinearGasCost::new(1, u64::MAX).checked_cost(2), None);
}

#[test]
fn scan_merges_pending_with_base_in_order() {
    let base = store_with(&[(b"b", b"base-b"), (b"d", b"base-d"), (b"f", b"base-f"), (b"h", b"base-h")]);
    let mut buf = Buffer::new(&base);
    buf.write(b"c".to_vec(), b"new-c".to_vec());
    buf.write(b"d".to_vec(), b"new-d".to_vec());
    buf.remove(b"f".to_vec());
    buf.write(b"a".to_vec(), b"new-a".to_vec());
    let all = buf.scan(None, None, true);
    let keys: Vec<Vec<u8>> = all.iter().map(|e| e.0.clone()).collect();
    assert_eq!(keys, vec![b"a".to_vec(), b"b".to_vec(), b"c".to_vec(), b"d".to_vec(), b"h".to_vec()]);
    assert_eq!(all[3].1, b"new-d".to_vec());
    assert_eq!(all[1].1, b"base-b".to_vec());
    let lo = b"b".to_vec();
    let hi = b"h".to_vec();
    let mid = buf.scan(Some(&lo), Some(&hi), false);
    let keys: Vec<Vec<u8>> = mid.iter().map(|e| e.0.clone()).collect();
    assert_eq!(keys, vec![b"d".to_vec(), b"c".to_vec(), b"b".to_vec()]);
    buf.remove_range(Some(&lo), Some(&hi));
    let rest: Vec<Vec<u8>> = buf.scan(None, None, true).iter().map(|e| e.0.clone()).collect();
    assert_eq!(rest, vec![b"a".to_vec(), b"h".to_vec()]);
    assert_eq!(base.len(), 4);
}

#[test]
fn spliting_tail() {
    let key = b"foobar";
    let value = b"fuzzbuzz";

    let mut data = Vec::with_capacity(key.len() + value.len() + 2);
    data.extend_from_slice(key);
    data.extend_from_slice(value);
    data.extend_from_slice(&(key.len() as u16).to_be_bytes());

    assert_eq!((key.to_vec(), value.to_vec()), grug_core::bytes::split_tail(data))
}

#[test]
fn byte_helpers() {
    assert_eq!(from_high_half(0x1234_5678_9abc_def0), 0x1234_5678);
    assert_eq!(from_low_half(0x1234_5678_9abc_def0), 0x9abc_def0);
    assert_eq!(to_sized(&[1, 2, 3], 3), Ok(vec![1, 2, 3]));
    assert_eq!(to_sized(&[1, 2, 3], 4), Err(LengthError::IncorrectLength { expect: 4, actual: 3 }));
    assert_eq!(truncate(&[1, 2, 3], 2), Ok(vec![1, 2]));
    assert_eq!(truncate(&[1, 2, 3], 5), Err(LengthError::ExceedsMaximumLength { max_length: 5, actual_length: 3 }));
}

#[test]
fn merkle_absence_proofs() {
    let s = store_with(&[(b"alpha", b"1"), (b"beta", b"2"), (b"gamma", b"3")]);
    let root = root_of(&s).unwrap();
    for k in [b"zeta".as_ref(), b"omega", b"a"] {
        let proof = prove_key(&s, &k.to_vec());
        assert!(verify_absence(&proof, Some(&root), &sha256(&k.to_vec())));
        let mut wrong = root.clone();
        wrong[5] ^= 0x80;
        assert!(!verify_absence(&proof, Some(&wrong), &sha256(&k.to_vec())));
    }
    let present = prove_key(&s, &b"beta".to_vec());
    assert!(!verify_absence(&present, Some(&root), &sha256(&b"beta".to_vec())));
    let empty = MemStore::new();
    let proof = prove_key(&empty, &b"x".to_vec());
    assert!(verify_absence(&proof, None, &sha256(&b"x".to_vec())));
}
