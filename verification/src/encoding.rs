//! The fixed, reversible binary encoding of proof operation sequences.
//!
//! A chunk is the concatenation of the encodings of its operations, with no
//! chunk-level header: every operation is self-delimiting (a tag byte, and
//! 8-byte little-endian length fields before each byte string), so a decoder
//! simply reads operations until the input is exhausted.

use crate::ops::{Node, NodeV, Op, OpV};
use vstd::prelude::*;

verus! {

/// 256 to the power `k`: the number of values a `k`-byte length field can hold.
pub open spec fn pow256(k: nat) -> nat
    decreases k,
{
    if k == 0 {
        1
    } else {
        256 * pow256((k - 1) as nat)
    }
}

/// A byte string short enough for the 8-byte length field.
pub open spec fn fits_len8(b: Seq<u8>) -> bool {
    b.len() < pow256(8)
}

pub open spec fn wf_node(n: NodeV) -> bool {
    match n {
        NodeV::Hash(h) => fits_len8(h),
        NodeV::KVHash(h) => fits_len8(h),
        NodeV::KV(k, v) => fits_len8(k) && fits_len8(v),
    }
}

pub open spec fn wf_op(op: OpV) -> bool {
    match op {
        OpV::Push(n) => wf_node(n),
        _ => true,
    }
}

/// Every byte string pushed by `ops` fits its length field.  This holds of
/// every operation sequence built from in-memory vectors.
pub open spec fn wf_ops(ops: Seq<OpV>) -> bool {
    forall|i: int| 0 <= i < ops.len() ==> wf_op(#[trigger] ops[i])
}

/// The `k` little-endian bytes of `n`.
pub open spec fn enc_len(n: nat, k: nat) -> Seq<u8>
    decreases k,
{
    if k == 0 {
        Seq::empty()
    } else {
        seq![(n % 256) as u8] + enc_len(n / 256, (k - 1) as nat)
    }
}

/// The number whose little-endian bytes are `b`.
pub open spec fn dec_len(b: Seq<u8>) -> nat
    decreases b.len(),
{
    if b.len() == 0 {
        0
    } else {
        (b[0] + 256 * dec_len(b.drop_first())) as nat
    }
}

/// A length-prefixed byte string.
pub open spec fn enc_bytes(b: Seq<u8>) -> Seq<u8> {
    enc_len(b.len(), 8) + b
}

pub open spec fn enc_node(n: NodeV) -> Seq<u8> {
    match n {
        NodeV::Hash(h) => seq![1u8] + enc_bytes(h),
        NodeV::KVHash(h) => seq![2u8] + enc_bytes(h),
        NodeV::KV(k, v) => seq![3u8] + enc_bytes(k) + enc_bytes(v),
    }
}

pub open spec fn enc_op(op: OpV) -> Seq<u8> {
    match op {
        OpV::Push(n) => enc_node(n),
        OpV::Parent => seq![16u8],
        OpV::Child => seq![17u8],
    }
}

/// The encoding of a whole operation sequence: the operations' encodings,
/// concatenated.
pub open spec fn enc_ops(ops: Seq<OpV>) -> Seq<u8>
    decreases ops.len(),
{
    if ops.len() == 0 {
        Seq::empty()
    } else {
        enc_op(ops[0]) + enc_ops(ops.drop_first())
    }
}

/// Decodes one operation from the front of `b`: the operation and the number
/// of bytes it occupies, or `None` if `b` does not start with a valid
/// encoding.
pub open spec fn dec_op(b: Seq<u8>) -> Option<(OpV, int)> {
    if b.len() == 0 {
        None
    } else if b[0] == 16 {
        Some((OpV::Parent, 1int))
    } else if b[0] == 17 {
        Some((OpV::Child, 1int))
    } else if b[0] == 1 || b[0] == 2 {
        if b.len() < 9 {
            None
        } else {
            let l = dec_len(b.subrange(1, 9)) as int;
            if b.len() < 9 + l {
                None
            } else {
                let h = b.subrange(9, 9 + l);
                if b[0] == 1 {
                    Some((OpV::Push(NodeV::Hash(h)), 9 + l))
                } else {
                    Some((OpV::Push(NodeV::KVHash(h)), 9 + l))
                }
            }
        }
    } else if b[0] == 3 {
        if b.len() < 9 {
            None
        } else {
            let kl = dec_len(b.subrange(1, 9)) as int;
            if b.len() < 17 + kl {
                None
            } else {
                let k = b.subrange(9, 9 + kl);
                let vl = dec_len(b.subrange(9 + kl, 17 + kl)) as int;
                if b.len() < 17 + kl + vl {
                    None
                } else {
                    let v = b.subrange(17 + kl, 17 + kl + vl);
                    Some((OpV::Push(NodeV::KV(k, v)), 17 + kl + vl))
                }
            }
        }
    } else {
        None
    }
}

/// Decodes a whole operation sequence, or `None` if `b` is not the encoding
/// of one.
pub open spec fn dec_ops(b: Seq<u8>) -> Option<Seq<OpV>>
    decreases b.len(),
{
    if b.len() == 0 {
        Some(Seq::empty())
    } else {
        match dec_op(b) {
            None => None,
            Some((op, used)) => if 1 <= used <= b.len() {
                match dec_ops(b.skip(used)) {
                    None => None,
                    Some(rest) => Some(seq![op] + rest),
                }
            } else {
                None
            },
        }
    }
}

pub proof fn lemma_pow256_8()
    ensures
        pow256(8) == 0x1_0000_0000_0000_0000,
{
    assert(pow256(0) == 1);
    assert(pow256(1) == 256);
    assert(pow256(2) == 0x1_0000);
    assert(pow256(3) == 0x100_0000);
    assert(pow256(4) == 0x1_0000_0000);
    assert(pow256(5) == 0x100_0000_0000);
    assert(pow256(6) == 0x1_0000_0000_0000);
    assert(pow256(7) == 0x100_0000_0000_0000);
    assert(pow256(8) == 0x1_0000_0000_0000_0000);
}

pub proof fn lemma_enc_len_len(n: nat, k: nat)
    ensures
        enc_len(n, k).len() == k,
    decreases k,
{
    if k > 0 {
        lemma_enc_len_len(n / 256, (k - 1) as nat);
    }
}

/// A `k`-byte length field holds values below `pow256(k)`.
pub proof fn lemma_dec_len_bound(b: Seq<u8>)
    ensures
        dec_len(b) < pow256(b.len()),
    decreases b.len(),
{
    if b.len() > 0 {
        lemma_dec_len_bound(b.drop_first());
    }
}

/// Round trip of the length field.
pub proof fn lemma_dec_enc_len(n: nat, k: nat)
    requires
        n < pow256(k),
    ensures
        dec_len(enc_len(n, k)) == n,
    decreases k,
{
    if k == 0 {
        assert(n == 0);
    } else {
        assert(pow256(k) == 256 * pow256((k - 1) as nat));
        assert(n / 256 < pow256((k - 1) as nat)) by {
            vstd::arithmetic::div_mod::lemma_multiply_divide_lt(
                n as int,
                256,
                pow256((k - 1) as nat) as int,
            );
        }
        lemma_dec_enc_len(n / 256, (k - 1) as nat);
        let e = enc_len(n, k);
        assert(e.drop_first() =~= enc_len(n / 256, (k - 1) as nat));
        assert(dec_len(e) == n % 256 + 256 * (n / 256));
        assert(n % 256 + 256 * (n / 256) == n) by {
            vstd::arithmetic::div_mod::lemma_fundamental_div_mod(n as int, 256);
        }
    }
}

pub proof fn lemma_enc_op_len(op: OpV)
    ensures
        enc_op(op).len() >= 1,
{
    match op {
        OpV::Push(n) => {
            match n {
                NodeV::Hash(h) => lemma_enc_len_len(h.len(), 8),
                NodeV::KVHash(h) => lemma_enc_len_len(h.len(), 8),
                NodeV::KV(k, v) => {
                    lemma_enc_len_len(k.len(), 8);
                    lemma_enc_len_len(v.len(), 8);
                },
            }
        },
        _ => {},
    }
}

/// Decoding the encoding of one operation, whatever follows it, yields that
/// operation back and consumes exactly its encoding.
pub proof fn lemma_dec_op_enc_op(op: OpV, rest: Seq<u8>)
    requires
        wf_op(op),
    ensures
        dec_op(enc_op(op) + rest) == Some((op, enc_op(op).len() as int)),
{
    let b = enc_op(op) + rest;
    match op {
        OpV::Parent => {
            assert(b[0] == 16);
            assert(enc_op(op).len() == 1);
            assert(dec_op(b) == Some((op, 1int)));
        },
        OpV::Child => {
            assert(b[0] == 17);
            assert(enc_op(op).len() == 1);
            assert(dec_op(b) == Some((op, 1int)));
        },
        OpV::Push(node) => {
            match node {
                NodeV::Hash(h) => {
                    lemma_enc_len_len(h.len(), 8);
                    lemma_push_hash_roundtrip(1, h, rest);
                    assert(enc_op(op).len() == 9 + h.len());
                },
                NodeV::KVHash(h) => {
                    lemma_enc_len_len(h.len(), 8);
                    lemma_push_hash_roundtrip(2, h, rest);
                    assert(enc_op(op).len() == 9 + h.len());
                },
                NodeV::KV(k, v) => {
                    lemma_enc_len_len(k.len(), 8);
                    lemma_enc_len_len(v.len(), 8);
                    let kl = k.len() as int;
                    let vl = v.len() as int;
                    assert(b =~= seq![3u8] + enc_len(k.len(), 8) + k + enc_len(v.len(), 8) + v
                        + rest);
                    assert(b.len() == 17 + kl + vl + rest.len());
                    assert(b[0] == 3);
                    assert(b.subrange(1, 9) =~= enc_len(k.len(), 8));
                    lemma_dec_enc_len(k.len(), 8);
                    assert(b.subrange(9, 9 + kl) =~= k);
                    assert(b.subrange(9 + kl, 17 + kl) =~= enc_len(v.len(), 8));
                    lemma_dec_enc_len(v.len(), 8);
                    assert(b.subrange(17 + kl, 17 + kl + vl) =~= v);
                    assert(dec_op(b) == Some((op, 17 + kl + vl)));
                    assert(enc_op(op).len() == 17 + kl + vl);
                },
            }
        },
    }
}

proof fn lemma_push_hash_roundtrip(tag: u8, h: Seq<u8>, rest: Seq<u8>)
    requires
        tag == 1 || tag == 2,
        fits_len8(h),
    ensures
        dec_op(seq![tag] + enc_bytes(h) + rest) == Some(
            (
                if tag == 1 {
                    OpV::Push(NodeV::Hash(h))
                } else {
                    OpV::Push(NodeV::KVHash(h))
                },
                9 + h.len() as int,
            ),
        ),
{
    let b = seq![tag] + enc_bytes(h) + rest;
    lemma_enc_len_len(h.len(), 8);
    let l = h.len() as int;
    assert(b.len() == 9 + l + rest.len());
    assert(b[0] == tag);
    assert(b.subrange(1, 9) =~= enc_len(h.len(), 8));
    lemma_dec_enc_len(h.len(), 8);
    assert(b.subrange(9, 9 + l) =~= h);
}

/// Round trip: decoding the encoding of any well-formed operation sequence
/// yields exactly that sequence.
pub proof fn lemma_codec_round_trip(ops: Seq<OpV>)
    requires
        wf_ops(ops),
    ensures
        dec_ops(enc_ops(ops)) == Some(ops),
    decreases ops.len(),
{
    if ops.len() == 0 {
        assert(dec_ops(enc_ops(ops)) == Some(Seq::<OpV>::empty()));
        assert(Seq::<OpV>::empty() =~= ops);
    } else {
        let head = ops[0];
        let tail = ops.drop_first();
        let b = enc_ops(ops);
        lemma_enc_op_len(head);
        assert(wf_op(head));
        lemma_dec_op_enc_op(head, enc_ops(tail));
        let used = enc_op(head).len() as int;
        assert(b == enc_op(head) + enc_ops(tail));
        assert(b.len() >= 1);
        assert(dec_op(b) == Some((head, used)));
        assert(b.skip(used) =~= enc_ops(tail));
        assert(wf_ops(tail)) by {
            assert(forall|i: int|
                0 <= i < tail.len() ==> #[trigger] tail[i] == ops[i + 1] && wf_op(ops[i + 1]));
        }
        lemma_codec_round_trip(tail);
        assert(dec_ops(b.skip(used)) == Some(tail));
        assert(seq![head] + tail =~= ops);
    }
}

/// Appends the 8-byte little-endian length field for `n`.
fn push_len8(out: &mut Vec<u8>, n: usize)
    ensures
        final(out)@ == old(out)@ + enc_len(n as nat, 8),
{
    let ghost base = out@;
    let mut x: u64 = n as u64;
    let mut j: usize = 0;
    while j < 8
        invariant
            j <= 8,
            out@.len() == base.len() + j,
            out@.take(base.len() as int) == base,
            enc_len(n as nat, 8) == out@.skip(base.len() as int) + enc_len(
                x as nat,
                (8 - j) as nat,
            ),
        decreases 8 - j,
    {
        let ghost emitted = out@.skip(base.len() as int);
        let b: u8 = (x % 256) as u8;
        out.push(b);
        proof {
            assert(out@.take(base.len() as int) =~= base);
            assert(out@.skip(base.len() as int) =~= emitted.push(b));
            assert(enc_len(x as nat, (8 - j) as nat) == seq![b] + enc_len(
                (x / 256) as nat,
                (8 - (j + 1)) as nat,
            ));
            assert(emitted.push(b) + enc_len((x / 256) as nat, (8 - (j + 1)) as nat) =~= emitted
                + enc_len(x as nat, (8 - j) as nat));
        }
        x = x / 256;
        j += 1;
    }
    proof {
        assert(enc_len(x as nat, 0) =~= Seq::<u8>::empty());
        assert(out@.skip(base.len() as int) + Seq::<u8>::empty() =~= out@.skip(base.len() as int));
        assert(out@ =~= out@.take(base.len() as int) + out@.skip(base.len() as int));
    }
}

/// Reads the 8-byte little-endian length field at `pos`.
fn read_len8(b: &Vec<u8>, pos: usize) -> (r: u64)
    requires
        pos + 8 <= b@.len(),
    ensures
        r as nat == dec_len(b@.subrange(pos as int, pos as int + 8)),
{
    proof {
        lemma_pow256_8();
    }
    let blen: usize = b.len();
    let mut acc: u64 = 0;
    let mut j: usize = 8;
    while j > 0
        invariant
            j <= 8,
            pos + 8 <= b@.len(),
            b@.len() == blen,
            acc as nat == dec_len(b@.subrange(pos as int + j, pos as int + 8)),
            acc < pow256((8 - j) as nat),
            pow256(8) == 0x1_0000_0000_0000_0000,
        decreases j,
    {
        proof {
            lemma_pow256_monotone((8 - j + 1) as nat, 8);
        }
        j -= 1;
        let byte: u8 = b[pos + j];
        proof {
            let s = b@.subrange(pos as int + j, pos as int + 8);
            assert(s[0] == byte);
            assert(s.drop_first() =~= b@.subrange(pos as int + j + 1, pos as int + 8));
        }
        acc = acc * 256 + byte as u64;
    }
    proof {
        assert(b@.subrange(pos as int, pos as int + 8) == b@.subrange(
            pos as int + 0,
            pos as int + 8,
        ));
    }
    acc
}

pub proof fn lemma_pow256_monotone(a: nat, c: nat)
    requires
        a <= c,
    ensures
        pow256(a) <= pow256(c),
    decreases c,
{
    if a < c && c > 0 {
        lemma_pow256_monotone(a, (c - 1) as nat);
        assert(pow256((c - 1) as nat) <= 256 * pow256((c - 1) as nat));
    }
}

/// Appends all of `b`.
fn push_bytes(out: &mut Vec<u8>, b: &Vec<u8>)
    ensures
        final(out)@ == old(out)@ + b@,
{
    let ghost base = out@;
    let mut k: usize = 0;
    while k < b.len()
        invariant
            k <= b@.len(),
            out@ == base + b@.take(k as int),
        decreases b@.len() - k,
    {
        out.push(b[k]);
        proof {
            assert(b@.take(k as int).push(b@[k as int]) =~= b@.take(k as int + 1));
            assert((base + b@.take(k as int)).push(b@[k as int]) =~= base + b@.take(k as int + 1));
        }
        k += 1;
    }
    proof {
        assert(b@.take(b@.len() as int) =~= b@);
    }
}

/// Serializes one operation sequence into its self-contained binary form.
pub fn encode_ops(ops: &Vec<Op>) -> (r: Vec<u8>)
    ensures
        r@ == enc_ops(ops.deep_view()),
{
    let ghost dv = ops.deep_view();
    let mut out: Vec<u8> = Vec::new();
    let mut i: usize = 0;
    proof {
        assert(dv.skip(0) =~= dv);
        assert(out@ + enc_ops(dv) =~= enc_ops(dv));
    }
    while i < ops.len()
        invariant
            i <= ops@.len(),
            dv == ops.deep_view(),
            dv.len() == ops@.len(),
            enc_ops(dv) == out@ + enc_ops(dv.skip(i as int)),
        decreases ops@.len() - i,
    {
        let ghost before = out@;
        let ghost opv = dv[i as int];
        match &ops[i] {
            Op::Parent => {
                out.push(16u8);
                proof {
                    assert(out@ =~= before + enc_op(opv));
                }
            },
            Op::Child => {
                out.push(17u8);
                proof {
                    assert(out@ =~= before + enc_op(opv));
                }
            },
            Op::Push(node) => {
                match node {
                    Node::Hash(h) => {
                        out.push(1u8);
                        push_len8(&mut out, h.len());
                        push_bytes(&mut out, h);
                        proof {
                            assert(out@ =~= before + enc_op(opv));
                        }
                    },
                    Node::KVHash(h) => {
                        out.push(2u8);
                        push_len8(&mut out, h.len());
                        push_bytes(&mut out, h);
                        proof {
                            assert(out@ =~= before + enc_op(opv));
                        }
                    },
                    Node::KV(k, v) => {
                        out.push(3u8);
                        push_len8(&mut out, k.len());
                        push_bytes(&mut out, k);
                        push_len8(&mut out, v.len());
                        push_bytes(&mut out, v);
                        proof {
                            assert(out@ =~= before + enc_op(opv));
                        }
                    },
                }
            },
        }
        proof {
            assert(dv.skip(i as int)[0] == opv);
            assert(dv.skip(i as int).drop_first() =~= dv.skip(i as int + 1));
            assert(enc_ops(dv.skip(i as int)) == enc_op(opv) + enc_ops(dv.skip(i as int + 1)));
            assert(before + (enc_op(opv) + enc_ops(dv.skip(i as int + 1))) =~= (before + enc_op(
                opv,
            )) + enc_ops(dv.skip(i as int + 1)));
        }
        i += 1;
    }
    proof {
        assert(dv.skip(dv.len() as int) =~= Seq::<OpV>::empty());
        assert(out@ + Seq::<u8>::empty() =~= out@);
    }
    out
}

/// Copies `b[start..end]` out into a fresh vector.
fn copy_range(b: &Vec<u8>, start: usize, end: usize) -> (r: Vec<u8>)
    requires
        start <= end <= b@.len(),
    ensures
        r@ == b@.subrange(start as int, end as int),
{
    let mut r: Vec<u8> = Vec::new();
    let mut k: usize = start;
    while k < end
        invariant
            start <= k <= end <= b@.len(),
            r@ == b@.subrange(start as int, k as int),
        decreases end - k,
    {
        r.push(b[k]);
        proof {
            assert(b@.subrange(start as int, k as int).push(b@[k as int]) =~= b@.subrange(
                start as int,
                k as int + 1,
            ));
        }
        k += 1;
    }
    r
}

/// Decodes one operation starting at `pos`.
fn decode_one(b: &Vec<u8>, pos: usize) -> (r: Option<(Op, usize)>)
    requires
        pos < b@.len(),
    ensures
        match r {
            Some(p) => {
                &&& dec_op(b@.skip(pos as int)) == Some((p.0.deep_view(), p.1 as int))
                &&& 1 <= p.1
                &&& pos + p.1 <= b@.len()
            },
            None => dec_op(b@.skip(pos as int)) == None::<(OpV, int)>,
        },
{
    let ghost s = b@.skip(pos as int);
    proof {
        assert(s[0] == b@[pos as int]);
        assert(s.len() == b@.len() - pos);
    }
    let rem: usize = b.len() - pos;
    let tag: u8 = b[pos];
    if tag == 16 {
        Some((Op::Parent, 1))
    } else if tag == 17 {
        Some((Op::Child, 1))
    } else if tag == 1 || tag == 2 {
        if rem < 9 {
            return None;
        }
        let l64: u64 = read_len8(b, pos + 1);
        proof {
            assert(b@.subrange(pos as int + 1, pos as int + 9) =~= s.subrange(1, 9));
            lemma_dec_len_bound(s.subrange(1, 9));
        }
        if l64 > (rem - 9) as u64 {
            proof {
                assert(s.len() < 9 + dec_len(s.subrange(1, 9)));
            }
            return None;
        }
        let l: usize = l64 as usize;
        let h = copy_range(b, pos + 9, pos + 9 + l);
        proof {
            assert(b@.subrange(pos as int + 9, pos as int + 9 + l) =~= s.subrange(9, 9 + l));
        }
        if tag == 1 {
            Some((Op::Push(Node::Hash(h)), 9 + l))
        } else {
            Some((Op::Push(Node::KVHash(h)), 9 + l))
        }
    } else if tag == 3 {
        if rem < 9 {
            return None;
        }
        let kl64: u64 = read_len8(b, pos + 1);
        proof {
            assert(b@.subrange(pos as int + 1, pos as int + 9) =~= s.subrange(1, 9));
            lemma_dec_len_bound(s.subrange(1, 9));
        }
        if rem < 17 {
            proof {
                assert(s.len() < 17 + dec_len(s.subrange(1, 9)));
            }
            return None;
        }
        if kl64 > (rem - 17) as u64 {
            proof {
                assert(s.len() < 17 + dec_len(s.subrange(1, 9)));
            }
            return None;
        }
        let kl: usize = kl64 as usize;
        let key = copy_range(b, pos + 9, pos + 9 + kl);
        let vl64: u64 = read_len8(b, pos + 9 + kl);
        proof {
            assert(b@.subrange(pos as int + 9, pos as int + 9 + kl) =~= s.subrange(9, 9 + kl));
            assert(b@.subrange(pos as int + 9 + kl, pos as int + 17 + kl) =~= s.subrange(
                9 + kl,
                17 + kl,
            ));
            lemma_dec_len_bound(s.subrange(9 + kl, 17 + kl));
        }
        if vl64 > (rem - 17 - kl) as u64 {
            proof {
                assert(s.len() < 17 + kl + dec_len(s.subrange(9 + kl, 17 + kl)));
            }
            return None;
        }
        let vl: usize = vl64 as usize;
        let value = copy_range(b, pos + 17 + kl, pos + 17 + kl + vl);
        proof {
            assert(b@.subrange(pos as int + 17 + kl, pos as int + 17 + kl + vl) =~= s.subrange(
                17 + kl,
                17 + kl + vl,
            ));
        }
        Some((Op::Push(Node::KV(key, value)), 17 + kl + vl))
    } else {
        None
    }
}

/// Decodes a chunk back into its operation sequence; `None` on any byte
/// string that is not the encoding of one.
pub fn decode_ops(b: &Vec<u8>) -> (r: Option<Vec<Op>>)
    ensures
        match r {
            Some(ops) => dec_ops(b@) == Some(ops.deep_view()),
            None => dec_ops(b@) == None::<Seq<OpV>>,
        },
{
    let mut out: Vec<Op> = Vec::new();
    let mut pos: usize = 0;
    proof {
        assert(b@.skip(0) =~= b@);
        let r = dec_ops(b@);
        if r is Some {
            assert(out.deep_view() + r.unwrap() =~= r.unwrap());
        }
    }
    while pos < b.len()
        invariant
            pos <= b@.len(),
            dec_ops(b@) == (match dec_ops(b@.skip(pos as int)) {
                Some(rest) => Some(out.deep_view() + rest),
                None => None::<Seq<OpV>>,
            }),
        decreases b@.len() - pos,
    {
        let ghost s = b@.skip(pos as int);
        match decode_one(b, pos) {
            None => {
                proof {
                    assert(s.len() > 0);
                    assert(dec_ops(s) == None::<Seq<OpV>>);
                }
                return None;
            },
            Some(p) => {
                let (op, used) = p;
                let ghost opv = op.deep_view();
                let ghost odv = out.deep_view();
                let ghost oldpos = pos as int;
                out.push(op);
                pos = pos + used;
                proof {
                    assert(s.len() > 0);
                    assert(dec_op(s) == Some((opv, used as int)));
                    assert(s.skip(used as int) =~= b@.skip(oldpos + used));
                    assert(out.deep_view() =~= odv.push(opv));
                    let r = dec_ops(b@.skip(pos as int));
                    if r is Some {
                        let rest = r.unwrap();
                        assert(odv + (seq![opv] + rest) =~= odv.push(opv) + rest);
                    }
                }
            },
        }
    }
    proof {
        assert(b@.skip(pos as int) =~= Seq::<u8>::empty());
        assert(out.deep_view() + Seq::<OpV>::empty() =~= out.deep_view());
    }
    Some(out)
}

} // verus!
