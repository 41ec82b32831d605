use merk_chunks::encoding::{decode_ops, encode_ops};
use merk_chunks::ops::{Node, Op};

fn sample_ops() -> Vec<Op> {
    vec![
        Op::Push(Node::Hash(vec![7u8; 32])),
        Op::Push(Node::KVHash(vec![9u8; 32])),
        Op::Push(Node::KV(vec![1, 2, 3], vec![4, 5])),
        Op::Parent,
        Op::Push(Node::KV(vec![], vec![])),
        Op::Child,
    ]
}

#[test]
fn encode_decode_round_trip() {
    let ops = sample_ops();
    let bytes = encode_ops(&ops);
    let back = decode_ops(&bytes).unwrap();
    assert_eq!(back, ops);
}

#[test]
fn decode_empty_is_empty_sequence() {
    let out = decode_ops(&Vec::new()).unwrap();
    assert!(out.is_empty());
}

#[test]
fn decode_rejects_garbage() {
    // unknown tag
    assert!(decode_ops(&vec![0u8]).is_none());
    assert!(decode_ops(&vec![42u8, 1, 2]).is_none());
    // a push whose length field is truncated
    assert!(decode_ops(&vec![1u8, 5, 0, 0]).is_none());
    // a length field promising more bytes than are present
    let bytes = vec![1u8, 4, 0, 0, 0, 0, 0, 0, 0, 1];
    assert!(decode_ops(&bytes).is_none());
    // valid op followed by trailing garbage
    let mut bytes = encode_ops(&sample_ops());
    bytes.push(0u8);
    assert!(decode_ops(&bytes).is_none());
}

#[test]
fn encoded_ops_exact_layout() {
    assert_eq!(encode_ops(&vec![Op::Parent, Op::Child]), vec![16u8, 17u8]);
    let ops = vec![Op::Push(Node::KV(vec![0xAA], vec![0xBB, 0xCC]))];
    assert_eq!(
        encode_ops(&ops),
        vec![3u8, 1, 0, 0, 0, 0, 0, 0, 0, 0xAA, 2, 0, 0, 0, 0, 0, 0, 0, 0xBB, 0xCC],
    );
}
