use std::sync::Arc;

use mini_lsm::block::Block;
use mini_lsm::block_iterator::BlockIterator;
use mini_lsm::table_builder::{decode_block_meta, SsTableBuilder};

fn key(i: usize) -> Vec<u8> {
    format!("key{:05}", i).into_bytes()
}

fn val(i: usize) -> Vec<u8> {
    format!("val{:05}", i).into_bytes()
}

fn u32_le(b: &[u8]) -> usize {
    b[0] as usize | (b[1] as usize) << 8 | (b[2] as usize) << 16 | (b[3] as usize) << 24
}

#[test]
fn two_block_table() {
    let mut builder = SsTableBuilder::new(64);
    let n = 4;
    for i in 0..n {
        builder.add(&key(i), &val(i));
    }
    let sealed = builder.estimated_size();
    assert!(sealed > 0);
    let table = builder.build::<()>(3, None);
    assert_eq!(table.id, 3);
    assert_eq!(table.block_meta.len(), 2);
    assert_eq!(table.block_meta[0].first_key, b"key00000".to_vec());
    assert_eq!(table.block_meta[1].last_key, key(n - 1));
    assert_eq!(table.block_meta[0].offset, 0);
    assert_eq!(table.block_meta[1].offset, sealed);
    assert_eq!(table.first_key, b"key00000".to_vec());
    assert_eq!(table.last_key, key(n - 1));

    let len = table.file.len();
    let m = u32_le(&table.file[len - 4..]);
    assert_eq!(m, table.block_meta_offset);

    // every block decodes back to its pairs, in order
    let mut all = Vec::new();
    for (i, meta) in table.block_meta.iter().enumerate() {
        let end = if i + 1 < table.block_meta.len() { table.block_meta[i + 1].offset } else { m };
        let block = Block::decode(&table.file[meta.offset..end]);
        let mut it = BlockIterator::create_and_seek_to_first(Arc::new(block));
        while it.is_valid() {
            all.push((it.key().to_vec(), it.value().to_vec()));
            it.next();
        }
    }
    let expected: Vec<(Vec<u8>, Vec<u8>)> = (0..n).map(|i| (key(i), val(i))).collect();
    assert_eq!(all, expected);

    // the meta section: first_len | first | last_len | last | offset, per block
    let meta = &table.file[m..len - 4];
    let mut p = 0;
    let mut seen = Vec::new();
    while p < meta.len() {
        let fl = meta[p] as usize | (meta[p + 1] as usize) << 8;
        let first = meta[p + 2..p + 2 + fl].to_vec();
        p += 2 + fl;
        let ll = meta[p] as usize | (meta[p + 1] as usize) << 8;
        let last = meta[p + 2..p + 2 + ll].to_vec();
        p += 2 + ll;
        let off = u32_le(&meta[p..p + 4]);
        p += 4;
        seen.push((off, first, last));
    }
    assert_eq!(p, meta.len());
    assert_eq!(seen.len(), 2);
    assert_eq!(seen[0], (0, key(0), table.block_meta[0].last_key.clone()));
    assert_eq!(seen[1].2, key(n - 1));

    let decoded = decode_block_meta(meta).unwrap();
    assert_eq!(decoded.len(), 2);
    for (d, b) in decoded.iter().zip(table.block_meta.iter()) {
        assert_eq!(d.offset, b.offset);
        assert_eq!(d.first_key, b.first_key);
        assert_eq!(d.last_key, b.last_key);
    }
}

#[test]
fn meta_decode_rejects_truncated_section() {
    let meta = vec![1u8, 0, b'k', 1, 0, b'k', 0, 0, 0, 0];
    assert_eq!(decode_block_meta(&meta).unwrap().len(), 1);
    assert!(decode_block_meta(&meta[..9]).is_none());
    assert!(decode_block_meta(&meta[..1]).is_none());
    assert_eq!(decode_block_meta(&[]).unwrap().len(), 0);
}

#[test]
fn single_pair_table() {
    let mut builder = SsTableBuilder::new(4096);
    builder.add(b"k", b"v");
    assert_eq!(builder.estimated_size(), 0);
    let cache = Arc::new(5u32);
    let table = builder.build(0, Some(cache.clone()));
    assert!(Arc::ptr_eq(table.block_cache.as_ref().unwrap(), &cache));
    assert_eq!(table.block_meta.len(), 1);
    // block: 0,0,1,0,'k',1,0,'v' | offset 0 | count 1
    let block = vec![0u8, 0, 1, 0, b'k', 1, 0, b'v', 0, 0, 1, 0];
    let meta = vec![1u8, 0, b'k', 1, 0, b'k', 0, 0, 0, 0];
    let mut file = block.clone();
    file.extend_from_slice(&meta);
    file.extend_from_slice(&[12, 0, 0, 0]);
    assert_eq!(table.file, file);
    assert_eq!(table.block_meta_offset, 12);
}
