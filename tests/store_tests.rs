use jmt_store::codec::{
    KeyKind, classify_key, decode_node, decode_node_key, decode_payload, decode_value_key,
    encode_node, encode_node_key, encode_payload, encode_preimage_key, encode_value_key,
};
use jmt_store::mem_store::MemTreeStore;
use jmt_store::store::{
    NodeBatch, StaleNodeIndex, StoreError, TreeUpdateBatch, encode_node_batch, node_from_stored,
    preimage_write_plan, value_from_seek,
};
use jmt_store::types::{Child, KeyHash, LeafNode, Node, NodeKey, ValueHash};

fn leaf(k: u8, v: u8) -> Node {
    Node::Leaf(LeafNode { key_hash: KeyHash([k; 32]), value_hash: ValueHash([v; 32]) })
}

fn values_batch(values: Vec<((u64, KeyHash), Option<Vec<u8>>)>) -> NodeBatch {
    NodeBatch { nodes: Vec::new(), values }
}

fn store_with(batches: Vec<NodeBatch>) -> MemTreeStore {
    let mut s = MemTreeStore::new();
    for b in batches {
        s.write_node_batch(&b).unwrap();
    }
    s
}

#[test]
fn test_rocksdb_basic_operations() {
    let key1 = KeyHash([1u8; 32]);
    let value1 = vec![0x01, 0x02, 0x03];
    let key2 = KeyHash([2u8; 32]);
    let value2 = vec![0x04, 0x05, 0x06];
    let batch = NodeBatch {
        nodes: vec![
            (NodeKey { version: 0, path: vec![0] }, leaf(1, 11)),
            (NodeKey { version: 0, path: vec![1] }, leaf(2, 12)),
        ],
        values: vec![((0, key1), Some(value1.clone())), ((0, key2), Some(value2.clone()))],
    };
    let mut db = MemTreeStore::new();
    db.write_tree_update_batch(TreeUpdateBatch { node_batch: batch, stale_node_index_batch: vec![] })
        .unwrap();
    assert_eq!(db.get_value_option(0, key1).unwrap(), Some(Some(value1)));
    assert_eq!(db.get_value_option(0, key2).unwrap(), Some(Some(value2)));
    assert_eq!(
        db.get_node_option(&NodeKey { version: 0, path: vec![1] }).unwrap(),
        Some(leaf(2, 12))
    );
}

#[test]
fn test_rocksdb_multiple_versions() {
    let key1 = KeyHash([1u8; 32]);
    let key2 = KeyHash([2u8; 32]);
    let value1_v0 = vec![0x01];
    let value1_v1 = vec![0x02];
    let value2_v2 = vec![0x03];
    let db = store_with(vec![
        values_batch(vec![((0, key1), Some(value1_v0.clone()))]),
        values_batch(vec![((1, key1), Some(value1_v1.clone()))]),
        values_batch(vec![((2, key1), None), ((2, key2), Some(value2_v2.clone()))]),
    ]);
    assert_eq!(db.get_value_option(0, key1).unwrap(), Some(Some(value1_v0)));
    assert_eq!(db.get_value_option(1, key1).unwrap(), Some(Some(value1_v1)));
    assert_eq!(db.get_value_option(2, key1).unwrap(), Some(None));
    assert_eq!(db.get_value_option(2, key2).unwrap(), Some(Some(value2_v2)));
}

#[test]
fn latest_version_lookup() {
    let k = KeyHash([7u8; 32]);
    let later = KeyHash([8u8; 32]);
    let db = store_with(vec![values_batch(vec![
        ((0, k), Some(b"a".to_vec())),
        ((2, k), Some(b"b".to_vec())),
        ((5, k), None),
        ((3, later), Some(b"c".to_vec())),
    ])]);
    assert_eq!(db.get_value_option(0, k).unwrap(), Some(Some(b"a".to_vec())));
    assert_eq!(db.get_value_option(1, k).unwrap(), Some(Some(b"a".to_vec())));
    assert_eq!(db.get_value_option(3, k).unwrap(), Some(Some(b"b".to_vec())));
    assert_eq!(db.get_value_option(5, k).unwrap(), Some(None));
    assert_eq!(db.get_value_option(u64::MAX, k).unwrap(), Some(None));
    assert_eq!(db.get_value_option(2, later).unwrap(), None);
    assert_eq!(db.get_value_option(9, KeyHash([9u8; 32])).unwrap(), None);
}

#[test]
fn scenario_write_update_delete() {
    let k1 = KeyHash([0x11; 32]);
    let k2 = KeyHash([0x22; 32]);
    let db = store_with(vec![
        values_batch(vec![((0, k1), Some(vec![1, 2, 3]))]),
        values_batch(vec![((1, k1), Some(vec![4, 5, 6]))]),
        values_batch(vec![((2, k1), None), ((2, k2), Some(vec![7, 8, 9]))]),
    ]);
    assert_eq!(db.get_value_option(0, k1).unwrap(), Some(Some(vec![1, 2, 3])));
    assert_eq!(db.get_value_option(1, k1).unwrap(), Some(Some(vec![4, 5, 6])));
    assert_eq!(db.get_value_option(2, k1).unwrap(), Some(None));
    assert_eq!(db.get_value_option(2, k2).unwrap(), Some(Some(vec![7, 8, 9])));
    assert_eq!(db.get_value_option(1, k2).unwrap(), None);
}

#[test]
fn node_round_trip() {
    let l = leaf(3, 4);
    assert_eq!(decode_node(&encode_node(&l)), Some(l));
    let internal = Node::Internal(vec![
        Child { index: 0, version: 3, hash: [5u8; 32], is_leaf: true },
        Child { index: 9, version: 0x0102_0304_0506_0708, hash: [6u8; 32], is_leaf: false },
        Child { index: 15, version: u64::MAX, hash: [7u8; 32], is_leaf: true },
    ]);
    let bytes = encode_node(&internal);
    assert_eq!(bytes.len(), 1 + 3 * 42);
    assert_eq!(decode_node(&bytes), Some(internal));
    let empty = Node::Internal(vec![]);
    assert_eq!(decode_node(&encode_node(&empty)), Some(empty));
}

#[test]
fn node_key_round_trip() {
    let k = NodeKey { version: 42, path: vec![1, 15, 0, 7] };
    let bytes = encode_node_key(&k);
    assert_eq!(bytes, vec![0, 0, 0, 0, 0, 0, 0, 0, 42, 1, 15, 0, 7]);
    assert_eq!(decode_node_key(&bytes), Some(k));
    let root = NodeKey { version: 0, path: vec![] };
    assert_eq!(decode_node_key(&encode_node_key(&root)), Some(root));
    assert_eq!(decode_node_key(&vec![0, 0, 0, 0, 0, 0, 0, 0, 1, 16]), None);
}

#[test]
fn value_key_layout_and_order() {
    let k = KeyHash([0xab; 32]);
    let bytes = encode_value_key(&k, 258);
    let mut expected = vec![1u8];
    expected.extend_from_slice(&[0xab; 32]);
    expected.extend_from_slice(&[0, 0, 0, 0, 0, 0, 1, 2]);
    assert_eq!(bytes, expected);
    assert_eq!(decode_value_key(&bytes), Some((k, 258)));
    let pairs = [(0u64, 1u64), (1, 2), (255, 256), (256, 65536), (u64::MAX - 1, u64::MAX)];
    for (a, b) in pairs {
        assert!(encode_value_key(&k, a) < encode_value_key(&k, b));
    }
}

#[test]
fn payload_codec() {
    assert_eq!(encode_payload(&None), vec![0]);
    assert_eq!(encode_payload(&Some(vec![9, 8])), vec![1, 9, 8]);
    assert_eq!(decode_payload(&vec![1, 9, 8]), Some(Some(vec![9, 8])));
    assert_eq!(decode_payload(&vec![1]), Some(Some(vec![])));
    assert_eq!(decode_payload(&vec![0]), Some(None));
    assert_eq!(decode_payload(&vec![0, 1]), None);
    assert_eq!(decode_payload(&vec![]), None);
    assert_eq!(decode_payload(&vec![2]), None);
}

#[test]
fn batch_is_atomic() {
    let k = KeyHash([4u8; 32]);
    let nk = NodeKey { version: 1, path: vec![2] };
    let good = NodeBatch { nodes: vec![(nk.clone(), leaf(4, 5))], values: vec![((1, k), Some(vec![1]))] };
    let mut db = MemTreeStore::new();
    assert_eq!(db.write_node_batch(&good), Ok(()));
    assert_eq!(db.get_node_option(&nk).unwrap(), Some(leaf(4, 5)));
    assert_eq!(db.get_value_option(1, k).unwrap(), Some(Some(vec![1])));

    let nk2 = NodeKey { version: 2, path: vec![3] };
    let bad_node = Node::Internal(vec![Child { index: 16, version: 2, hash: [0u8; 32], is_leaf: true }]);
    let bad = NodeBatch {
        nodes: vec![(nk2.clone(), leaf(6, 6)), (NodeKey { version: 2, path: vec![4] }, bad_node)],
        values: vec![((2, k), Some(vec![2]))],
    };
    assert_eq!(db.write_node_batch(&bad), Err(StoreError::InvalidNode));
    assert_eq!(db.get_node_option(&nk2).unwrap(), None);
    assert_eq!(db.get_value_option(2, k).unwrap(), Some(Some(vec![1])));

    let bad_path = NodeBatch { nodes: vec![(NodeKey { version: 3, path: vec![16] }, leaf(1, 1))], values: vec![] };
    assert_eq!(encode_node_batch(&bad_path), Err(StoreError::InvalidNode));
}

#[test]
fn preimage_idempotent() {
    let k = KeyHash([5u8; 32]);
    let mut db = MemTreeStore::new();
    assert_eq!(db.preimage(k).unwrap(), None);
    assert_eq!(db.write_preimage(k, b"hello".to_vec()), Ok(()));
    assert_eq!(db.write_preimage(k, b"hello".to_vec()), Ok(()));
    assert_eq!(db.preimage(k).unwrap(), Some(b"hello".to_vec()));
    assert_eq!(db.write_preimage(k, b"other".to_vec()), Err(StoreError::IntegrityViolation));
    assert_eq!(db.preimage(k).unwrap(), Some(b"hello".to_vec()));
    assert_eq!(preimage_write_plan(&None, &vec![1]), Ok(true));
    assert_eq!(preimage_write_plan(&Some(vec![1]), &vec![1]), Ok(false));
    assert_eq!(preimage_write_plan(&Some(vec![1]), &vec![2]), Err(StoreError::IntegrityViolation));
}

#[test]
fn corrupt_bytes_are_errors() {
    assert_eq!(node_from_stored(None), Ok(None));
    assert_eq!(node_from_stored(Some(vec![7, 7, 7])), Err(StoreError::Corruption));
    assert_eq!(node_from_stored(Some(encode_node(&leaf(1, 2)))), Ok(Some(leaf(1, 2))));
    let unordered = Node::Internal(vec![
        Child { index: 5, version: 1, hash: [1u8; 32], is_leaf: true },
        Child { index: 5, version: 1, hash: [2u8; 32], is_leaf: true },
    ]);
    assert_eq!(decode_node(&encode_node(&unordered)), None);
    let mut bad_flag = encode_node(&Node::Internal(vec![Child { index: 1, version: 1, hash: [1u8; 32], is_leaf: true }]));
    bad_flag[42] = 2;
    assert_eq!(decode_node(&bad_flag), None);
}

#[test]
fn seek_result_decides_lookup() {
    let k = KeyHash([3u8; 32]);
    let other = KeyHash([2u8; 32]);
    let found = |h: &KeyHash, v: u64, p: Vec<u8>| Some((encode_value_key(h, v), p));
    assert_eq!(value_from_seek(&k, 5, None), Ok(None));
    assert_eq!(value_from_seek(&k, 5, found(&k, 4, vec![1, 9])), Ok(Some(Some(vec![9]))));
    assert_eq!(value_from_seek(&k, 5, found(&k, 4, vec![0])), Ok(Some(None)));
    assert_eq!(value_from_seek(&k, 5, found(&other, 4, vec![1, 9])), Ok(None));
    assert_eq!(value_from_seek(&k, 3, found(&k, 4, vec![1, 9])), Ok(None));
    assert_eq!(value_from_seek(&k, 5, found(&k, 4, vec![3])), Err(StoreError::Corruption));
    let node_entry = Some((encode_node_key(&NodeKey { version: 1, path: vec![] }), vec![1]));
    assert_eq!(value_from_seek(&k, 5, node_entry), Ok(None));
}

#[test]
fn keys_classified_by_namespace() {
    let k = KeyHash([6u8; 32]);
    let nk = NodeKey { version: 9, path: vec![1, 2] };
    assert_eq!(classify_key(&encode_node_key(&nk)), KeyKind::Node(nk));
    assert_eq!(classify_key(&encode_value_key(&k, 9)), KeyKind::Value(k, 9));
    assert_eq!(classify_key(&encode_preimage_key(&k)), KeyKind::Preimage(k));
    assert_eq!(classify_key(&vec![9, 9]), KeyKind::Unknown);
}

#[test]
fn rightmost_leaf_is_unknown() {
    let db = store_with(vec![NodeBatch {
        nodes: vec![(NodeKey { version: 0, path: vec![] }, leaf(1, 1))],
        values: vec![],
    }]);
    assert_eq!(db.get_rightmost_leaf(), Ok(None));
    let stale = StaleNodeIndex { stale_since_version: 1, node_key: NodeKey { version: 0, path: vec![] } };
    let mut db2 = MemTreeStore::new();
    let batch = TreeUpdateBatch { node_batch: values_batch(vec![]), stale_node_index_batch: vec![stale] };
    assert_eq!(db2.write_tree_update_batch(batch), Ok(()));
}
