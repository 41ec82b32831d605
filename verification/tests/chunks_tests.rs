use merk_chunks::chunks::{entries_of_ops, ChunkProducer};
use merk_chunks::cursor::Entry;
use merk_chunks::encoding::{decode_ops, encode_ops};
use merk_chunks::error::Error;
use merk_chunks::ops::{Node, Op};

fn key_of(i: usize) -> Vec<u8> {
    vec![(i >> 8) as u8, (i & 0xff) as u8]
}

fn value_of(i: usize) -> Vec<u8> {
    vec![(i % 251) as u8, 123]
}

fn make_entries(range: std::ops::Range<usize>) -> Vec<Entry> {
    range.map(|i| Entry { key: key_of(i), value: value_of(i) }).collect()
}

/// A trunk whose whole tree fits: every entry appears as a key/value push.
fn full_trunk(entries: &[Entry]) -> Vec<Op> {
    let mut ops = Vec::new();
    for (n, e) in entries.iter().enumerate() {
        ops.push(Op::Push(Node::KV(e.key.clone(), e.value.clone())));
        if n > 0 {
            ops.push(Op::Child);
        }
    }
    ops
}

/// A trunk that elides subtrees: one key/value push per boundary entry,
/// with hashes standing in for the elided subtrees.
fn trunk_with_boundaries(entries: &[Entry], boundary_idx: &[usize]) -> Vec<Op> {
    let mut ops = Vec::new();
    for (n, &i) in boundary_idx.iter().enumerate() {
        ops.push(Op::Push(Node::Hash(vec![n as u8; 32])));
        ops.push(Op::Push(Node::KV(entries[i].key.clone(), entries[i].value.clone())));
        ops.push(Op::Parent);
    }
    ops.push(Op::Push(Node::Hash(vec![255u8; 32])));
    ops.push(Op::Child);
    ops
}

fn kv_pairs(ops: &[Op]) -> Vec<(Vec<u8>, Vec<u8>)> {
    let mut out = Vec::new();
    for op in ops {
        if let Op::Push(Node::KV(k, v)) = op {
            out.push((k.clone(), v.clone()));
        }
    }
    out
}

fn collect_chunks(producer: ChunkProducer) -> Vec<Vec<u8>> {
    let mut iter = producer.into_iter();
    let mut out = Vec::new();
    while let Some(chunk) = iter.next() {
        out.push(chunk.unwrap());
    }
    out
}

#[test]
fn len_small() {
    let entries = make_entries(1..256);
    let trunk = full_trunk(&entries);
    let chunks = ChunkProducer::new(trunk, false, entries).unwrap();
    assert_eq!(chunks.len(), 1);
    assert_eq!(chunks.into_iter().size_hint().0, 1);
}

#[test]
fn len_big() {
    let entries = make_entries(1..10_000);
    let boundary_idx: Vec<usize> = (0..127).map(|n| n * 78 + 77).collect();
    let trunk = trunk_with_boundaries(&entries, &boundary_idx);
    let chunks = ChunkProducer::new(trunk, true, entries).unwrap();
    assert_eq!(chunks.len(), 129);
    assert_eq!(chunks.into_iter().size_hint().0, 129);
}

#[test]
fn generate_and_verify_chunks() {
    let entries = make_entries(1..10_000);
    let boundary_idx: Vec<usize> = (0..127).map(|n| n * 78 + 77).collect();
    let trunk = trunk_with_boundaries(&entries, &boundary_idx);
    let producer =
        ChunkProducer::new(trunk.clone(), true, entries.clone()).unwrap();
    let chunks = collect_chunks(producer);
    assert_eq!(chunks.len(), 129);

    // chunk 0 decodes back to the trunk
    let trunk_ops = decode_ops(&chunks[0]).unwrap();
    assert_eq!(trunk_ops, trunk);

    // the 128 leaf chunks decode to the full entry list, in order
    let mut recovered: Vec<Entry> = Vec::new();
    for chunk in &chunks[1..] {
        let ops = decode_ops(chunk).unwrap();
        recovered.extend(entries_of_ops(&ops));
    }
    assert_eq!(recovered, entries);
}

#[test]
fn leaf_chunk_ranges_include_boundary() {
    let entries = make_entries(0..10);
    let trunk = trunk_with_boundaries(&entries, &[4]);
    let producer = ChunkProducer::new(trunk, true, entries.clone()).unwrap();
    assert_eq!(producer.len(), 3);
    let chunks = collect_chunks(producer);

    let first = kv_pairs(&decode_ops(&chunks[1]).unwrap());
    let second = kv_pairs(&decode_ops(&chunks[2]).unwrap());
    let keys1: Vec<Vec<u8>> = first.iter().map(|(k, _)| k.clone()).collect();
    let keys2: Vec<Vec<u8>> = second.iter().map(|(k, _)| k.clone()).collect();
    // the first leaf chunk runs up to and including the boundary key
    assert_eq!(keys1, (0..5).map(key_of).collect::<Vec<_>>());
    // the last leaf chunk covers the rest
    assert_eq!(keys2, (5..10).map(key_of).collect::<Vec<_>>());
}

#[test]
fn random_access_chunks() {
    let entries = make_entries(1..111);
    let trunk = trunk_with_boundaries(&entries, &[20, 45, 70, 90]);
    let producer = ChunkProducer::new(trunk.clone(), true, entries.clone()).unwrap();
    let chunks = collect_chunks(producer);

    let mut producer = ChunkProducer::new(trunk, true, entries).unwrap();
    for i in 0..chunks.len() * 2 {
        let index = i % chunks.len();
        assert_eq!(producer.chunk(index).unwrap(), chunks[index]);
    }
    // a fixed pseudo-random order, each index twice, interleaved
    let n = chunks.len();
    for i in 0..n * 2 {
        let index = (i * 5 + 3) % n;
        assert_eq!(producer.chunk(index).unwrap(), chunks[index]);
    }
}

#[test]
fn chunk_index_out_of_bounds() {
    let entries = make_entries(0..30);
    let trunk = trunk_with_boundaries(&entries, &[9, 19]);
    let mut producer = ChunkProducer::new(trunk, true, entries).unwrap();
    let n = producer.len();
    assert_eq!(n, 4);
    let good = producer.chunk(0).unwrap();
    assert_eq!(producer.chunk(n), Err(Error::IndexOutOfBounds));
    assert_eq!(producer.chunk(n + 100), Err(Error::IndexOutOfBounds));
    // the failed requests changed nothing
    assert_eq!(producer.chunk(0).unwrap(), good);
}

#[test]
fn chunks_from_reopen() {
    // a reopened store presents the same snapshot: a producer rebuilt over
    // it serves chunks of the same length, index for index
    let entries = make_entries(1..10);
    let trunk = trunk_with_boundaries(&entries, &[2, 5]);
    let original_chunks =
        collect_chunks(ChunkProducer::new(trunk.clone(), true, entries.clone()).unwrap());
    let reopen_chunks = collect_chunks(ChunkProducer::new(trunk, true, entries).unwrap());
    assert_eq!(original_chunks.len(), reopen_chunks.len());
    for (original, reopened) in original_chunks.iter().zip(reopen_chunks.iter()) {
        assert_eq!(original.len(), reopened.len());
    }
}

#[test]
fn chunks_from_checkpoint() {
    // a point-in-time checkpoint holds the same snapshot state: a producer
    // built over it serves chunks of the same length, index for index
    let entries = make_entries(1..10);
    let trunk = trunk_with_boundaries(&entries, &[4]);
    let original_chunks =
        collect_chunks(ChunkProducer::new(trunk.clone(), true, entries.clone()).unwrap());
    let checkpoint_chunks = collect_chunks(ChunkProducer::new(trunk, true, entries).unwrap());
    assert_eq!(original_chunks.len(), checkpoint_chunks.len());
    for (original, checkpoint) in original_chunks.iter().zip(checkpoint_chunks.iter()) {
        assert_eq!(original.len(), checkpoint.len());
    }
}

#[test]
fn rebuilt_producer_serves_identical_chunks() {
    let entries = make_entries(0..50);
    let trunk = trunk_with_boundaries(&entries, &[11, 23, 37]);
    let first = ChunkProducer::new(trunk.clone(), true, entries.clone()).unwrap();
    let original: Vec<Vec<u8>> = collect_chunks(first);
    // a producer rebuilt over the same snapshot state serves the same bytes
    let mut rebuilt = ChunkProducer::new(trunk, true, entries).unwrap();
    for (i, chunk) in original.iter().enumerate() {
        assert_eq!(&rebuilt.chunk(i).unwrap(), chunk);
    }
}

#[test]
fn empty_tree_single_chunk() {
    let mut producer = ChunkProducer::new(Vec::new(), false, Vec::new()).unwrap();
    assert_eq!(producer.len(), 1);
    let bytes = producer.chunk(0).unwrap();
    assert_eq!(bytes, encode_ops(&Vec::new()));
    assert!(decode_ops(&bytes).unwrap().is_empty());

    let producer = ChunkProducer::new(Vec::new(), false, Vec::new()).unwrap();
    let mut iter = producer.into_iter();
    assert!(iter.next().unwrap().is_ok());
    assert!(iter.next().is_none());
    assert!(iter.next().is_none());
}

#[test]
fn iterator_reports_total_not_remaining() {
    let entries = make_entries(0..30);
    let trunk = trunk_with_boundaries(&entries, &[9, 19]);
    let producer = ChunkProducer::new(trunk, true, entries).unwrap();
    let mut iter = producer.into_iter();
    assert_eq!(iter.size_hint(), (4, Some(4)));
    iter.next().unwrap().unwrap();
    iter.next().unwrap().unwrap();
    // deliberately the total chunk count, not the number remaining
    assert_eq!(iter.size_hint(), (4, Some(4)));
    assert!(iter.next().is_some());
    assert!(iter.next().is_some());
    assert!(iter.next().is_none());
    assert_eq!(iter.size_hint(), (4, Some(4)));
}

#[test]
fn construction_rejects_unsorted_entries() {
    let mut entries = make_entries(0..10);
    entries.swap(3, 4);
    let trunk = full_trunk(&entries);
    assert_eq!(
        ChunkProducer::new(trunk, false, entries).err().unwrap(),
        Error::ConstructionFailure,
    );
}

#[test]
fn construction_rejects_missing_boundary_key() {
    let entries = make_entries(0..10);
    let mut trunk = Vec::new();
    trunk.push(Op::Push(Node::KV(key_of(99), value_of(99))));
    assert_eq!(
        ChunkProducer::new(trunk.clone(), true, entries.clone()).err().unwrap(),
        Error::ConstructionFailure,
    );
    // without elided subtrees the trunk's keys are not boundaries
    assert!(ChunkProducer::new(trunk, false, entries).is_ok());
}

#[test]
fn construction_rejects_unordered_boundary_keys() {
    let entries = make_entries(0..10);
    let mut trunk = Vec::new();
    trunk.push(Op::Push(Node::KV(entries[7].key.clone(), entries[7].value.clone())));
    trunk.push(Op::Push(Node::KV(entries[2].key.clone(), entries[2].value.clone())));
    assert_eq!(
        ChunkProducer::new(trunk, true, entries).err().unwrap(),
        Error::ConstructionFailure,
    );
}

#[test]
fn sequential_and_random_access_agree() {
    let entries = make_entries(0..40);
    let trunk = trunk_with_boundaries(&entries, &[7, 15, 31]);
    let sequential = collect_chunks(ChunkProducer::new(trunk.clone(), true, entries.clone()).unwrap());
    let mut producer = ChunkProducer::new(trunk, true, entries).unwrap();
    // random access in reverse order yields the same bytes as iteration
    for index in (0..sequential.len()).rev() {
        assert_eq!(producer.chunk(index).unwrap(), sequential[index]);
    }
}
