use trie_tools::compact::{compact, CompactionStats, DestinationOptions};
use trie_tools::digest::Digest;
use trie_tools::keys::{era_info_keys, Key};
use trie_tools::node::{decode, encode, Node};
use trie_tools::purge::purge;
use trie_tools::state::{init_empty_root, read, write_batch, WriteOp};
use trie_tools::store::{TrieError, TrieStore};

const CAP: usize = 1 << 20;

fn fresh_state() -> (TrieStore, Digest) {
    let mut store = TrieStore::new(CAP);
    let root = init_empty_root(&mut store).expect("empty root fits");
    (store, root)
}

fn put(store: &mut TrieStore, root: &Digest, key: &[u8], value: &[u8]) -> Digest {
    let ops = vec![WriteOp { key: key.to_vec(), value: Some(value.to_vec()) }];
    write_batch(store, root, &ops).expect("write fits")
}

fn del(store: &mut TrieStore, root: &Digest, key: &[u8]) -> Digest {
    let ops = vec![WriteOp { key: key.to_vec(), value: None }];
    write_batch(store, root, &ops).expect("delete fits")
}

fn get(store: &TrieStore, root: &Digest, key: &[u8]) -> Option<Vec<u8>> {
    read(store, root, &key.to_vec()).expect("walk is clean")
}

#[test]
fn codec_round_trip_leaf() {
    let node = Node::Leaf { suffix: vec![1, 2, 3], value: vec![9, 9] };
    let bytes = encode(&node);
    match decode(&bytes) {
        Some(Node::Leaf { suffix, value }) => {
            assert_eq!(suffix, vec![1, 2, 3]);
            assert_eq!(value, vec![9, 9]);
        }
        _ => panic!("expected the leaf back"),
    }
}

#[test]
fn codec_round_trip_extension() {
    let child = Digest::new([7u8; 32]);
    let node = Node::Extension { prefix: vec![4, 5], child };
    let bytes = encode(&node);
    match decode(&bytes) {
        Some(Node::Extension { prefix, child }) => {
            assert_eq!(prefix, vec![4, 5]);
            assert_eq!(child.bytes, [7u8; 32]);
        }
        _ => panic!("expected the extension back"),
    }
}

#[test]
fn codec_round_trip_branch() {
    let node = Node::Branch {
        value: Some(vec![1]),
        children: vec![(0, Digest::new([1u8; 32])), (200, Digest::new([2u8; 32]))],
    };
    let bytes = encode(&node);
    match decode(&bytes) {
        Some(Node::Branch { value, children }) => {
            assert_eq!(value, Some(vec![1]));
            assert_eq!(children.len(), 2);
            assert_eq!(children[0].0, 0);
            assert_eq!(children[1].0, 200);
            assert_eq!(children[1].1.bytes, [2u8; 32]);
        }
        _ => panic!("expected the branch back"),
    }
}

#[test]
fn codec_rejects_garbage() {
    assert!(decode(&vec![]).is_none());
    assert!(decode(&vec![9, 1, 2]).is_none());
    // an extension must carry a non-empty prefix
    assert!(decode(&vec![1, 0, 0, 0, 0]).is_none());
}

#[test]
fn empty_root_reads_nothing() {
    let (store, root) = fresh_state();
    assert_eq!(get(&store, &root, b"anything"), None);
}

#[test]
fn write_then_read_back() {
    let (mut store, root) = fresh_state();
    let r1 = put(&mut store, &root, b"alpha", b"one");
    let r2 = put(&mut store, &r1, b"alphabet", b"two");
    let r3 = put(&mut store, &r2, b"beta", b"three");
    assert_eq!(get(&store, &r3, b"alpha"), Some(b"one".to_vec()));
    assert_eq!(get(&store, &r3, b"alphabet"), Some(b"two".to_vec()));
    assert_eq!(get(&store, &r3, b"beta"), Some(b"three".to_vec()));
    assert_eq!(get(&store, &r3, b"gamma"), None);
    // earlier versions stay readable: nodes are never overwritten
    assert_eq!(get(&store, &r1, b"alpha"), Some(b"one".to_vec()));
    assert_eq!(get(&store, &r1, b"alphabet"), None);
}

#[test]
fn overwrite_same_key() {
    let (mut store, root) = fresh_state();
    let r1 = put(&mut store, &root, b"k", b"v1");
    let r2 = put(&mut store, &r1, b"k", b"v2");
    assert_eq!(get(&store, &r2, b"k"), Some(b"v2".to_vec()));
    assert_eq!(get(&store, &r1, b"k"), Some(b"v1".to_vec()));
}

#[test]
fn write_batch_is_deterministic() {
    let ops = vec![
        WriteOp { key: b"a".to_vec(), value: Some(b"1".to_vec()) },
        WriteOp { key: b"ab".to_vec(), value: Some(b"2".to_vec()) },
        WriteOp { key: b"b".to_vec(), value: None },
    ];
    let (mut s1, root1) = fresh_state();
    let (mut s2, root2) = fresh_state();
    assert_eq!(root1.bytes, root2.bytes);
    let r1 = write_batch(&mut s1, &root1, &ops).unwrap();
    let r2 = write_batch(&mut s2, &root2, &ops).unwrap();
    assert_eq!(r1.bytes, r2.bytes);
}

#[test]
fn write_batch_unknown_root() {
    let (mut store, _root) = fresh_state();
    let bogus = Digest::new([0xAB; 32]);
    let ops = vec![WriteOp { key: b"x".to_vec(), value: Some(b"y".to_vec()) }];
    assert_eq!(write_batch(&mut store, &bogus, &ops).unwrap_err(), TrieError::UnknownRoot);
}

#[test]
fn write_batch_out_of_space() {
    let mut store = TrieStore::new(256);
    let root = init_empty_root(&mut store).unwrap();
    let used_before = store.bytes_used();
    let ops = vec![WriteOp { key: b"key".to_vec(), value: Some(vec![0u8; 512]) }];
    assert_eq!(write_batch(&mut store, &root, &ops).unwrap_err(), TrieError::OutOfSpace);
    assert_eq!(store.bytes_used(), used_before);
}

#[test]
fn purge_chains_like_manual_batches() {
    let (mut store, empty) = fresh_state();
    let mut root = empty;
    let mut keys: Vec<Vec<u8>> = Vec::new();
    for i in 0..100u32 {
        let key = format!("key-{:03}", i).into_bytes();
        root = put(&mut store, &root, &key, b"payload");
        keys.push(key);
    }
    // one purge in chunks of ten
    let (mut purged_store, full_root) = clone_by_replay(&keys);
    let purged_root = purge(&mut purged_store, &full_root, &keys, 10).unwrap();
    // ten manual delete batches, each feeding the next root
    let mut manual = root;
    for chunk in keys.chunks(10) {
        let ops: Vec<WriteOp> =
            chunk.iter().map(|k| WriteOp { key: k.clone(), value: None }).collect();
        manual = write_batch(&mut store, &manual, &ops).unwrap();
    }
    assert_eq!(purged_root.bytes, manual.bytes);
}

/// Rebuilds the same 100-key trie in a fresh store and hands back the store
/// with the root of the full trie.
fn clone_by_replay(keys: &[Vec<u8>]) -> (TrieStore, Digest) {
    let (mut store, empty) = fresh_state();
    let mut root = empty;
    for key in keys {
        root = put(&mut store, &root, key, b"payload");
    }
    (store, root)
}

#[test]
fn purge_absent_key_keeps_root() {
    let (mut store, empty) = fresh_state();
    let root = put(&mut store, &empty, b"present", b"v");
    let absent = vec![b"missing".to_vec()];
    let after = purge(&mut store, &root, &absent, 1).unwrap();
    assert_eq!(after.bytes, root.bytes);
}

#[test]
fn purge_empty_keys_returns_initial_root() {
    let (mut store, root) = fresh_state();
    let after = purge(&mut store, &root, &Vec::new(), 7).unwrap();
    assert_eq!(after.bytes, root.bytes);
}

#[test]
fn purge_rejects_zero_batch_size() {
    let (mut store, root) = fresh_state();
    let keys = vec![b"k".to_vec()];
    let failure = purge(&mut store, &root, &keys, 0).unwrap_err();
    assert_eq!(failure.error, TrieError::InvalidBatchSize);
    assert_eq!(failure.last_root.bytes, root.bytes);
}

#[test]
fn purge_rejects_zero_batch_size_even_without_keys() {
    let (mut store, root) = fresh_state();
    let failure = purge(&mut store, &root, &Vec::new(), 0).unwrap_err();
    assert_eq!(failure.error, TrieError::InvalidBatchSize);
    assert_eq!(failure.last_root.bytes, root.bytes);
}

#[test]
fn purge_era_scenario() {
    // three era-info keys and one generic key; purging eras 0 and 1 one key
    // per batch leaves the third era and the generic key untouched
    let (mut store, empty) = fresh_state();
    let eras = era_info_keys(3);
    let generic = Key::Generic(b"account".to_vec()).to_bytes();
    let mut root = empty;
    for (i, era) in eras.iter().enumerate() {
        root = put(&mut store, &root, era, format!("era-{}", i).as_bytes());
    }
    root = put(&mut store, &root, &generic, b"balance");

    let r1 = del(&mut store, &root, &eras[0]);
    let r2 = del(&mut store, &r1, &eras[1]);
    let chained = purge(&mut store, &root, &vec![eras[0].clone(), eras[1].clone()], 1).unwrap();
    assert_eq!(chained.bytes, r2.bytes);

    assert_eq!(get(&store, &r2, &eras[0]), None);
    assert_eq!(get(&store, &r2, &eras[1]), None);
    assert_eq!(get(&store, &r2, &eras[2]), Some(b"era-2".to_vec()));
    assert_eq!(get(&store, &r2, &generic), Some(b"balance".to_vec()));
    // the pre-purge root still sees everything
    assert_eq!(get(&store, &root, &eras[0]), Some(b"era-0".to_vec()));
}

#[test]
fn era_info_keys_shape() {
    let keys = era_info_keys(2);
    assert_eq!(keys.len(), 2);
    assert_eq!(keys[0], vec![1, 0, 0, 0, 0, 0, 0, 0, 0]);
    assert_eq!(keys[1], vec![1, 0, 0, 0, 0, 0, 0, 0, 1]);
    assert_eq!(Key::Generic(vec![7]).to_bytes(), vec![0, 7]);
}

fn populated() -> (TrieStore, Digest, Digest) {
    let (mut store, empty) = fresh_state();
    let r1 = put(&mut store, &empty, b"alpha", b"one");
    let r1 = put(&mut store, &r1, b"alphabet", b"two");
    let r2 = put(&mut store, &r1, b"beta", b"three");
    (store, r1, r2)
}

#[test]
fn compact_new_copies_reachable_set() {
    let (source, r1, r2) = populated();
    let mut dest = TrieStore::new(CAP);
    let stats = compact(&source, &mut dest, &vec![r1, r2], DestinationOptions::New).unwrap();
    assert!(stats.visited > 0);
    assert_eq!(stats.copied, stats.visited);
    assert!(stats.bytes_written > 0);
    // every key of every live root reads identically out of the copy
    for root in [r1, r2] {
        for key in [&b"alpha"[..], b"alphabet", b"beta", b"gamma"] {
            assert_eq!(get(&dest, &root, key), get(&source, &root, key));
        }
    }
    assert!(dest.bytes_used() <= source.bytes_used());
}

#[test]
fn compact_new_refuses_populated_destination() {
    let (source, _r1, r2) = populated();
    let mut dest = TrieStore::new(CAP);
    compact(&source, &mut dest, &vec![r2], DestinationOptions::New).unwrap();
    let second = compact(&source, &mut dest, &vec![r2], DestinationOptions::New);
    assert_eq!(second.unwrap_err(), TrieError::DestinationExists);
}

#[test]
fn compact_append_twice_is_idempotent() {
    let (source, _r1, r2) = populated();
    let mut dest = TrieStore::new(CAP);
    let first = compact(&source, &mut dest, &vec![r2], DestinationOptions::New).unwrap();
    let used_once = dest.bytes_used();
    let second = compact(&source, &mut dest, &vec![r2], DestinationOptions::Append).unwrap();
    assert_eq!(second.visited, first.visited);
    assert_eq!(second.copied, 0);
    assert_eq!(second.bytes_written, 0);
    assert_eq!(dest.bytes_used(), used_once);
    assert_eq!(get(&dest, &r2, b"alpha"), Some(b"one".to_vec()));
}

#[test]
fn compact_overwrite_drops_old_content() {
    let (source, r1, r2) = populated();
    let mut dest = TrieStore::new(CAP);
    compact(&source, &mut dest, &vec![r1], DestinationOptions::New).unwrap();
    let stats = compact(&source, &mut dest, &vec![r2], DestinationOptions::Overwrite).unwrap();
    assert_eq!(stats.copied, stats.visited);
    assert_eq!(get(&dest, &r2, b"beta"), Some(b"three".to_vec()));
}

#[test]
fn compact_unknown_root() {
    let (source, _r1, _r2) = populated();
    let mut dest = TrieStore::new(CAP);
    let bogus = Digest::new([0xCD; 32]);
    let r = compact(&source, &mut dest, &vec![bogus], DestinationOptions::New);
    assert_eq!(r.unwrap_err(), TrieError::UnknownRoot);
}

#[test]
fn compact_out_of_space_keeps_committed_batches() {
    let (source, _r1, r2) = populated();
    let mut dest = TrieStore::new(64);
    let r = compact(&source, &mut dest, &vec![r2], DestinationOptions::New);
    assert_eq!(r.unwrap_err(), TrieError::OutOfSpace);
    assert!(dest.bytes_used() <= 64);
}

#[test]
fn compact_stats_match() {
    let (source, _r1, r2) = populated();
    let mut dest = TrieStore::new(CAP);
    let stats = compact(&source, &mut dest, &vec![r2], DestinationOptions::New).unwrap();
    assert_eq!(
        stats,
        CompactionStats {
            visited: stats.visited,
            copied: stats.visited,
            bytes_written: dest.bytes_used(),
        }
    );
}

#[test]
fn digest_same_as() {
    let a = Digest::new([1u8; 32]);
    let b = Digest::new([1u8; 32]);
    let mut c_bytes = [1u8; 32];
    c_bytes[31] = 2;
    let c = Digest::new(c_bytes);
    assert!(a.same_as(&b));
    assert!(!a.same_as(&c));
}
