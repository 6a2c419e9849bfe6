use std::sync::Arc;

use mini_lsm::block::Block;
use mini_lsm::block_builder::BlockBuilder;
use mini_lsm::block_iterator::BlockIterator;
use mini_lsm::key::{compare_keys, compute_overlap};

fn build(pairs: &[(&[u8], &[u8])], block_size: usize) -> Block {
    let mut b = BlockBuilder::new(block_size);
    for (k, v) in pairs {
        assert!(b.add(k, v));
    }
    b.build()
}

fn collect(mut it: BlockIterator) -> Vec<(Vec<u8>, Vec<u8>)> {
    let mut out = Vec::new();
    while it.is_valid() {
        out.push((it.key().to_vec(), it.value().to_vec()));
        it.next();
    }
    out
}

#[test]
fn prefix_compression_against_first_key() {
    let block = build(&[(b"applepie", b"1"), (b"applesauce", b"2"), (b"applet", b"3")], 4096);
    let o1 = block.offsets[1] as usize;
    let o2 = block.offsets[2] as usize;
    let overlap1 = block.data[o1] as usize + 256 * block.data[o1 + 1] as usize;
    let overlap2 = block.data[o2] as usize + 256 * block.data[o2 + 1] as usize;
    assert_eq!(overlap1, 5);
    assert_eq!(overlap2, 5);
    let all = collect(BlockIterator::create_and_seek_to_first(Arc::new(block)));
    assert_eq!(
        all,
        vec![
            (b"applepie".to_vec(), b"1".to_vec()),
            (b"applesauce".to_vec(), b"2".to_vec()),
            (b"applet".to_vec(), b"3".to_vec()),
        ]
    );
}

#[test]
fn entry_bytes_are_little_endian() {
    let block = build(&[(b"ab", b"xyz"), (b"ac", b"")], 4096);
    assert_eq!(block.data, vec![0, 0, 2, 0, b'a', b'b', 3, 0, b'x', b'y', b'z', 1, 0, 1, 0, b'c', 0, 0]);
    assert_eq!(block.offsets, vec![0, 11]);
    assert_eq!(
        block.encode(),
        vec![0, 0, 2, 0, b'a', b'b', 3, 0, b'x', b'y', b'z', 1, 0, 1, 0, b'c', 0, 0, 0, 0, 11, 0, 2, 0]
    );
}

#[test]
fn block_full_refuses_third_pair() {
    let mut b = BlockBuilder::new(40);
    assert!(b.add(b"key1", b"value1"));
    assert!(b.add(b"key2", b"value2"));
    assert_eq!(b.estimated_size(), 35);
    assert!(!b.add(b"key3", b"value3"));
    let all = collect(BlockIterator::create_and_seek_to_first(Arc::new(b.build())));
    assert_eq!(all.len(), 2);
    assert_eq!(all[1].0, b"key2".to_vec());
}

#[test]
fn first_pair_always_accepted() {
    let mut b = BlockBuilder::new(10);
    assert!(b.is_empty());
    assert!(b.add(b"a-long-key", b"a-long-value"));
    assert!(!b.is_empty());
    assert!(!b.add(b"b", b""));
}

#[test]
fn size_can_pass_target_by_offset_slot() {
    let mut b = BlockBuilder::new(20);
    assert!(b.add(b"a", b""));
    assert_eq!(b.estimated_size(), 11);
    assert!(b.add(b"b", b"xx"));
    assert_eq!(b.estimated_size(), 22);
}

#[test]
fn encode_decode_round_trip() {
    let pairs: Vec<(Vec<u8>, Vec<u8>)> =
        (0..50).map(|i| (format!("key{:03}", i).into_bytes(), format!("v{}", i).into_bytes())).collect();
    let mut b = BlockBuilder::new(4096);
    for (k, v) in &pairs {
        assert!(b.add(k, v));
    }
    let block = b.build();
    let decoded = Block::decode(&block.encode());
    assert_eq!(decoded.data, block.data);
    assert_eq!(decoded.offsets, block.offsets);
    assert_eq!(decoded.num_entries(), 50);
    assert_eq!(decoded.get_first_key(), b"key000".to_vec());
    assert_eq!(collect(BlockIterator::create_and_seek_to_first(Arc::new(decoded))), pairs);
}

#[test]
fn seek_to_key_finds_least_not_below() {
    let block = Arc::new(build(&[(b"b", b"1"), (b"d", b"2"), (b"f", b"3")], 4096));
    let it = BlockIterator::create_and_seek_to_key(block.clone(), b"d");
    assert_eq!(it.key(), b"d");
    let it = BlockIterator::create_and_seek_to_key(block.clone(), b"c");
    assert_eq!(it.key(), b"d");
    assert_eq!(it.value(), b"2");
    let it = BlockIterator::create_and_seek_to_key(block.clone(), b"a");
    assert_eq!(it.key(), b"b");
    let it = BlockIterator::create_and_seek_to_key(block.clone(), b"");
    assert_eq!(it.key(), b"b");
    let it = BlockIterator::create_and_seek_to_key(block.clone(), b"g");
    assert!(!it.is_valid());
    let mut it = BlockIterator::create_and_seek_to_key(block, b"e");
    assert_eq!(it.key(), b"f");
    it.seek_to_key(b"b");
    assert_eq!(it.key(), b"b");
}

#[test]
fn reverse_iteration() {
    let block = Arc::new(build(&[(b"b", b"1"), (b"d", b"2"), (b"f", b"3")], 4096));
    let keys: Vec<Vec<u8>> =
        collect(BlockIterator::create_and_seek_to_last(block.clone())).into_iter().map(|p| p.0).collect();
    assert_eq!(keys, vec![b"f".to_vec(), b"d".to_vec(), b"b".to_vec()]);
    let mut it = BlockIterator::create_and_seek_to_first(block);
    it.seek_to_last();
    assert_eq!(it.key(), b"f");
    it.seek_to_first();
    assert_eq!(it.key(), b"b");
}

#[test]
fn key_helpers() {
    assert!(compare_keys(b"ab", b"abc") < 0);
    assert!(compare_keys(b"b", b"abc") > 0);
    assert_eq!(compare_keys(b"abc", b"abc"), 0);
    assert_eq!(compute_overlap(b"applepie", b"applet"), 5);
    assert_eq!(compute_overlap(b"", b"apple"), 0);
}
