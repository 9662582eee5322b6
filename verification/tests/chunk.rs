//! Chunks and nodes.

use versioning::chunk::{
    blake3_chunk_hash, split_decision, xxhash32, Builder, Cursor, MutMap, ProllyNode, WeibullChunker,
    MAX_ITEMS, NODE_MAGIC,
};
use versioning::model::{ChunkHash, NodeFlags, StoreError};

fn mixed_payload(len: usize) -> Vec<u8> {
    (0..len as u32)
        .map(|i| (i.wrapping_mul(2654435761) >> 16) as u8)
        .collect()
}

#[test]
fn chunk_blake3_known_vector() {
    let h = blake3_chunk_hash(b"");
    let expected_hex = "af1349b9f5f9a1a6a0404dea36dcc9499bcb25c9";
    let expected = ChunkHash::from_hex(expected_hex).unwrap();
    assert_eq!(h, expected);
}

#[test]
fn chunk_blake3_1mib_deterministic() {
    let data = vec![0xABu8; 1024 * 1024];
    assert_eq!(blake3_chunk_hash(&data), blake3_chunk_hash(&data));
}

#[test]
fn chunk_blake3_prefix_differs() {
    // Truncation to 20 bytes must not lose sensitivity: two 1 MiB inputs that
    // differ only in the last byte hash to different chunks.
    let a = vec![0u8; 1024 * 1024];
    let mut b = a.clone();
    *b.last_mut().unwrap() = 1;
    assert_ne!(blake3_chunk_hash(&a), blake3_chunk_hash(&b));
}

#[test]
fn chunk_xxhash32_doltlite_golden() {
    // Seed 0 over the 8-byte big-endian form of the keys 0 to 31.
    let expected: [u32; 32] = [
        0xdeb39513, 0xf414a945, 0xd53c8ecb, 0xea0bee70, 0xf8cdd998, 0x17d5f46a, 0xb2edcb43,
        0x87a9925e, 0xa3301e1d, 0x4c537cb4, 0x8b4174dd, 0x5ece03f1, 0xbb28819c, 0x52f7a644,
        0x867ce427, 0xfd624c39, 0x15d91f09, 0x9efb9836, 0xd2b74cf3, 0x7d456185, 0xeaabb43d,
        0xa3f424a0, 0xff4b9b11, 0x0817d47a, 0x10d28df6, 0x08ab1330, 0x14c039bd, 0x04d7fa0e,
        0xe76e2dbd, 0x74e636d9, 0x3119a83e, 0xf5b8a0e0,
    ];
    for (key, want) in expected.iter().enumerate() {
        assert_eq!(xxhash32(&(key as u64).to_be_bytes(), 0), *want, "key {key}");
    }
    // Short inputs never reach the 16-byte blocks.
    let block = (0u8..16).collect::<Vec<u8>>();
    assert_eq!(xxhash32(&block, 0), 0xb72837f4, "bytes 0..15");
    assert_eq!(xxhash32(&[0xABu8; 32], 0), 0xed4004c7, "32x0xAB");
    assert_eq!(xxhash32(b"Hello, world!", 0), 0x31b7405d);
}

#[test]
fn chunk_weibull_boundary_golden() {
    // Level 10 on this payload splits by hash, splits once at the limit, and
    // leaves a tail.
    let payload = mixed_payload(64 * 1024);
    let mut chunker = WeibullChunker::with_level(10);
    chunker.push(&payload);
    let emitted = chunker.push_emitted_len();
    let chunks = chunker.finish();

    let expected_boundaries = [
        2374, 4829, 7284, 9739, 12194, 14649, 17104, 19559, 22014, 24469, 26924, 29379, 31834,
        34289, 36744, 39199, 41654, 44109, 60493,
    ];
    assert_eq!(emitted, expected_boundaries.len());
    let mut offset = 0usize;
    for (chunk, want) in chunks[..emitted].iter().zip(expected_boundaries) {
        offset += chunk.data.len();
        assert_eq!(offset, want, "chunk boundary offset mismatch");
    }
    assert_eq!(chunks[emitted].data.len(), 5043, "finish tail");
}

#[test]
fn chunk_weibull_sizes_within_min_max() {
    // Level 0 never hash-splits, and 1 MiB is an exact multiple of MAX,
    // so every chunk is a full 16384-byte forced split with no tail.
    let mut chunker = WeibullChunker::with_level(0);
    let payload: Vec<u8> = (0..1_048_576u32)
        .map(|i| (i.wrapping_mul(2654435761) >> 16) as u8)
        .collect();
    chunker.push(&payload);
    let chunks = chunker.finish();
    assert!(!chunks.is_empty());
    for c in &chunks {
        assert!(
            c.data.len() >= WeibullChunker::MIN && c.data.len() <= WeibullChunker::MAX,
            "chunk size {} outside [{}, {}]",
            c.data.len(),
            WeibullChunker::MIN,
            WeibullChunker::MAX
        );
    }
}

#[test]
fn chunk_weibull_deterministic() {
    let payload: Vec<u8> = (0..1_048_576u32)
        .map(|i| (i.wrapping_mul(2654435761) >> 16) as u8)
        .collect();

    let mut c1 = WeibullChunker::new();
    c1.push(&payload);
    let chunks1 = c1.finish();

    let mut c2 = WeibullChunker::new();
    c2.push(&payload);
    let chunks2 = c2.finish();

    assert_eq!(chunks1.len(), chunks2.len());
    for (a, b) in chunks1.iter().zip(chunks2.iter()) {
        assert_eq!(a.hash, b.hash);
        assert_eq!(a.data, b.data);
    }
}

#[test]
fn chunk_weibull_empty_input() {
    let chunker = WeibullChunker::new();
    let chunks = chunker.finish();
    assert!(chunks.is_empty());
}

#[test]
fn chunk_weibull_small_input_buffered() {
    let mut chunker = WeibullChunker::new();
    chunker.push(&[0xAB; 10]);
    assert_eq!(chunker.remaining().len(), 10);
    let chunks = chunker.finish();
    assert_eq!(chunks.len(), 1);
    assert_eq!(chunks[0].data.len(), 10);
}

#[test]
fn chunk_weibull_split_push_matches_single_push() {
    // A splitting level (8 → expected ~768-byte chunks) and ≥64 KiB total
    // so the test exercises hash-split boundaries, not one merged tail.
    let payload_a: Vec<u8> = (0..40_960u32)
        .map(|i| (i.wrapping_mul(2654435761) >> 16) as u8)
        .collect();
    let payload_b: Vec<u8> = (0..40_960u32)
        .map(|i| (i.wrapping_mul(4_050_328) >> 8) as u8)
        .collect();

    let mut chunker1 = WeibullChunker::with_level(8);
    chunker1.push(&payload_a);
    chunker1.push(&payload_b);
    let chunks1 = chunker1.finish();

    let mut chunker2 = WeibullChunker::with_level(8);
    let mut combined = payload_a.clone();
    combined.extend_from_slice(&payload_b);
    chunker2.push(&combined);
    let chunks2 = chunker2.finish();

    assert!(chunks1.len() >= 2, "payload must reach a hash split");
    assert_eq!(chunks1.len(), chunks2.len());
    for (a, b) in chunks1.iter().zip(chunks2.iter()) {
        assert_eq!(a.hash, b.hash);
        assert_eq!(a.data, b.data);
    }
}

#[test]
fn chunk_weibull_max_plus_10_tail() {
    // At level 0 nothing hash-splits, so push() forces full-MAX splits and
    // the 10 leftover bytes ride in the buffer as the finish() tail.
    let mut chunker = WeibullChunker::with_level(0);
    let payload = vec![0u8; WeibullChunker::MAX + 10];
    chunker.push(&payload);
    let emitted = chunker.push_emitted_len();
    assert!(emitted >= 1);
    let chunks = chunker.finish();
    assert_eq!(chunks.len(), emitted + 1);
    for c in &chunks[..emitted] {
        assert!(
            (WeibullChunker::MIN..=WeibullChunker::MAX).contains(&c.data.len()),
            "push-emitted chunk size {} outside [{}, {}]",
            c.data.len(),
            WeibullChunker::MIN,
            WeibullChunker::MAX
        );
    }
    assert_eq!(chunks[emitted].data.len(), 10);
}

#[test]
fn chunk_weibull_nominal_target_near_l() {
    // new() picks the level whose expected chunk size is 2^level = L, so
    // the average chunk size on a splitting payload lands near L.
    let payload: Vec<u8> = (0..4_194_304u32)
        .map(|i| (i.wrapping_mul(2654435761) >> 16) as u8)
        .collect();
    let mut chunker = WeibullChunker::new();
    chunker.push(&payload);
    let emitted = chunker.push_emitted_len();
    let chunks = chunker.finish();
    assert!(emitted >= 32);
    let total: usize = chunks[..emitted].iter().map(|c| c.data.len()).sum();
    let average = total / emitted;
    assert!(
        (WeibullChunker::L / 2..=WeibullChunker::L * 2).contains(&average),
        "average push-emitted chunk {average} not near L = {}",
        WeibullChunker::L
    );
}

#[test]
fn chunk_weibull_nonzero_level_splits() {
    // Level 8 → threshold 2^24 (expected ~768-byte chunks), so a 64 KiB
    // mixed payload splits many times, exercising the hash path.
    let payload: Vec<u8> = (0..65_536u32)
        .map(|i| (i.wrapping_mul(2654435761) >> 16) as u8)
        .collect();

    let mut first = WeibullChunker::with_level(8);
    first.push(&payload);
    let emitted = first.push_emitted_len();
    let chunks = first.finish();

    assert!(emitted >= 4, "level 8 on 64 KiB must split, got {emitted}");
    for c in &chunks[..emitted] {
        assert!(
            (WeibullChunker::MIN..=WeibullChunker::MAX).contains(&c.data.len()),
            "push-emitted chunk size {} outside [{}, {}]",
            c.data.len(),
            WeibullChunker::MIN,
            WeibullChunker::MAX
        );
    }
    assert!(
        chunks.len() <= emitted + 1,
        "only the finish tail may be extra"
    );

    let mut second = WeibullChunker::with_level(8);
    second.push(&payload);
    let chunks2 = second.finish();
    assert_eq!(chunks.len(), chunks2.len());
    for (a, b) in chunks.iter().zip(chunks2.iter()) {
        assert_eq!(a.hash, b.hash);
        assert_eq!(a.data, b.data);
    }
}

#[test]
fn chunk_weibull_hostile_no_hash_split_every_chunk_in_range() {
    // Level 0 never hash-splits, so zeros always fill to MAX. The finish
    // remainder lands in-range here only by arithmetic luck:
    // 100000 − 6×16384 = 1696, which is ≥ MIN. The MAX+10 test covers a
    // sub-MIN tail explicitly.
    let mut chunker = WeibullChunker::with_level(0);
    let payload = vec![0u8; 100_000];
    chunker.push(&payload);
    let chunks = chunker.finish();
    assert!(!chunks.is_empty());
    for c in &chunks {
        assert!(
            c.data.len() >= WeibullChunker::MIN && c.data.len() <= WeibullChunker::MAX,
            "hostile chunk size {} outside [{}, {}]",
            c.data.len(),
            WeibullChunker::MIN,
            WeibullChunker::MAX
        );
    }
}

#[test]
fn chunk_node_pnod_roundtrip() {
    let node = ProllyNode {
        flags: NodeFlags(NodeFlags::INTKEY | NodeFlags::BLOBKEY | NodeFlags::COUNTS),
        counts: [100, 200],
        items: vec![
            (b"key1".to_vec(), b"val1".to_vec()),
            (b"key2".to_vec(), b"val2".to_vec()),
        ],
    };
    let encoded = node.encode();
    let decoded = ProllyNode::decode(&encoded).unwrap();
    assert_eq!(decoded.flags.0, node.flags.0);
    assert_eq!(decoded.counts, node.counts);
    assert_eq!(decoded.items, node.items);
    assert_eq!(encoded, decoded.encode());
}

#[test]
fn chunk_node_rejects_bad_magic() {
    let buf = [0xDEu8, 0xAD, 0xBE, 0xEF, 0, 0, 0, 0, 0, 0, 0, 0, 0, 0, 0, 0];
    let result = ProllyNode::decode(&buf);
    assert!(matches!(result, Err(StoreError::BadNodeMagic)));
}

#[test]
fn chunk_node_rejects_trailing_bytes() {
    let node = ProllyNode {
        flags: NodeFlags(0),
        counts: [0, 0],
        items: vec![],
    };
    let mut encoded = node.encode();
    encoded.push(0xFF);
    assert!(ProllyNode::decode(&encoded).is_err());
}

#[test]
fn chunk_node_rejects_count_too_large() {
    let mut buf = vec![0u8; 16];
    buf[0..4].copy_from_slice(&NODE_MAGIC.to_be_bytes());
    buf[6..8].copy_from_slice(&(MAX_ITEMS as u16 + 1).to_be_bytes());
    assert!(ProllyNode::decode(&buf).is_err());
}

#[test]
fn chunk_builder_rejects_unordered() {
    let mut b = Builder::new();
    b.push(b"b".to_vec(), b"1".to_vec()).unwrap();
    let result = b.push(b"a".to_vec(), b"2".to_vec());
    assert!(matches!(result, Err(StoreError::UnorderedInsert)));
}

#[test]
fn chunk_builder_rejects_oversized() {
    let mut b = Builder::new();
    for i in 0..MAX_ITEMS {
        let key = (i as u64).to_be_bytes().to_vec();
        b.push(key, vec![0]).unwrap();
    }
    let result = b.push(vec![0xFF; 8], vec![0]);
    assert!(matches!(result, Err(StoreError::UnorderedInsert)));
}

#[test]
fn chunk_cursor_seek_plus_two_advances() {
    let node1 = ProllyNode {
        flags: NodeFlags(0),
        counts: [0, 0],
        items: vec![
            (b"a".to_vec(), b"1".to_vec()),
            (b"b".to_vec(), b"2".to_vec()),
        ],
    };
    let node2 = ProllyNode {
        flags: NodeFlags(0),
        counts: [0, 0],
        items: vec![
            (b"c".to_vec(), b"3".to_vec()),
            (b"d".to_vec(), b"4".to_vec()),
        ],
    };
    let mut cursor = Cursor::new(vec![node1, node2]);
    let first = cursor.seek(b"b").unwrap();
    assert_eq!(first, (&b"b"[..], &b"2"[..]));
    let second = cursor.advance().unwrap();
    assert_eq!(second, (&b"c"[..], &b"3"[..]));
    let third = cursor.advance().unwrap();
    assert_eq!(third, (&b"d"[..], &b"4"[..]));
}

#[test]
fn mutmap_put_get_delete_snapshot() {
    let mut m = MutMap::new();
    assert_eq!(m.get(b"x"), None);
    m.put(b"b".to_vec(), b"2".to_vec());
    m.put(b"a".to_vec(), b"1".to_vec());
    m.put(b"c".to_vec(), b"3".to_vec());
    assert_eq!(m.get(b"a"), Some(&b"1"[..]));
    assert_eq!(m.get(b"b"), Some(&b"2"[..]));
    assert_eq!(m.get(b"c"), Some(&b"3"[..]));
    let snap = m.snapshot();
    assert_eq!(snap.len(), 3);
    assert_eq!(snap[0].0, b"a".to_vec());
    assert_eq!(snap[1].0, b"b".to_vec());
    assert_eq!(snap[2].0, b"c".to_vec());
    m.put(b"b".to_vec(), b"22".to_vec());
    assert_eq!(m.get(b"b"), Some(&b"22"[..]));
    assert!(m.delete(b"a"));
    assert_eq!(m.get(b"a"), None);
    assert!(!m.delete(b"missing"));
    assert_eq!(m.snapshot().len(), 2);
}

#[test]
fn split_decision_levels() {
    // threshold = 1 << (32 - level): split iff hash < threshold
    // level 0: threshold = 0, no hash is below → never split
    assert!(!split_decision(0, 0));
    assert!(!split_decision(u32::MAX, 0));
    // level 1: threshold = 2^31, lower half of hashes split
    assert!(split_decision(0, 1));
    assert!(split_decision(2u32.pow(31) - 1, 1));
    assert!(!split_decision(2u32.pow(31), 1));
    assert!(!split_decision(u32::MAX, 1));
    // level 31: threshold = 2, only hashes 0 and 1 split
    assert!(split_decision(0, 31));
    assert!(split_decision(1, 31));
    assert!(!split_decision(2, 31));
    // level 32: threshold = 1, only hash 0 splits
    assert!(split_decision(0, 32));
    assert!(!split_decision(1, 32));
    assert!(!split_decision(u32::MAX, 32));
}
