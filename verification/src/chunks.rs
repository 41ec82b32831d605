//! The chunk producer: splits one full-tree proof into an ordered,
//! randomly-addressable set of byte sequences, each independently
//! verifiable.
//!
//! Chunk 0 is the serialized trunk (the proof of the tree's upper levels).
//! Every key/value push in the trunk contributes one boundary key, and leaf
//! chunk `i >= 1` proves the run of entries from just past the previous
//! boundary key up to and including boundary key `i - 1` (up to the end of
//! the snapshot for the last chunk).

use crate::cursor::{
    adj_keys_ascending, advance_past, entries_sorted, has_key, keys_ascending, check_sorted,
    find_key, key_lt, lemma_adj_keys_ascending, lemma_advance_past_found,
    lemma_advance_past_props, lemma_lex_asymmetric, lemma_lex_irreflexive, lemma_seek_pos_found,
    lex_lt, seek_pos, Cursor, Entry, EntryV,
};
use crate::encoding::{enc_ops, encode_ops};
use crate::error::Error;
use crate::ops::{kv_keys_of, Node, NodeV, Op, OpV};
use vstd::prelude::*;

verus! {

/// Mathematical model of a [`ChunkProducer`].
pub struct ProducerV {
    /// The trunk's operations: chunk 0.
    pub trunk: Seq<OpV>,
    /// The boundary keys derived from the trunk, ascending.
    pub boundaries: Seq<Seq<u8>>,
    /// The snapshot's entries, in key order.
    pub entries: Seq<EntryV>,
    /// The cursor's position.
    pub pos: int,
    /// The index of the chunk the next sequential step will produce.
    pub index: int,
}

/// The total chunk count: one trunk-only chunk when no subtrees were
/// elided, else the trunk plus one leaf chunk per boundary key plus the
/// final unbounded leaf chunk.
pub open spec fn chunk_count(bs: Seq<Seq<u8>>) -> int {
    if bs.len() == 0 {
        1
    } else {
        bs.len() as int + 2
    }
}

/// The entry index a leaf chunk's range starts at: the snapshot's first
/// entry for chunk 1, one past the seek target `bs[i - 2]` otherwise.
pub open spec fn chunk_start(es: Seq<EntryV>, bs: Seq<Seq<u8>>, i: int) -> int {
    if i <= 1 {
        0
    } else {
        seek_pos(es, bs[i - 2]) + 1
    }
}

/// The key bound of leaf chunk `i`: the chunk runs up to and including
/// boundary key `i - 1`; the last chunk has no bound.
pub open spec fn end_key_of(bs: Seq<Seq<u8>>, i: int) -> Option<Seq<u8>> {
    if i - 1 < bs.len() {
        Some(bs[i - 1])
    } else {
        None
    }
}

/// The entry index one past a leaf chunk's range.
pub open spec fn chunk_end(es: Seq<EntryV>, bs: Seq<Seq<u8>>, i: int) -> int {
    advance_past(es, chunk_start(es, bs, i), end_key_of(bs, i))
}

/// The entries leaf chunk `i` proves.
pub open spec fn chunk_entries(es: Seq<EntryV>, bs: Seq<Seq<u8>>, i: int) -> Seq<EntryV> {
    es.subrange(chunk_start(es, bs, i), chunk_end(es, bs, i))
}

/// The operation sequence of a leaf chunk over `es`: push the first entry,
/// then push each later entry and attach it with a combine step.
pub open spec fn leaf_ops_of(es: Seq<EntryV>) -> Seq<OpV>
    decreases es.len(),
{
    if es.len() == 0 {
        Seq::empty()
    } else {
        seq![OpV::Push(NodeV::KV(es[0].key, es[0].value))] + leaf_rest(es.drop_first())
    }
}

/// The operations for every entry of a leaf chunk after the first.
pub open spec fn leaf_rest(es: Seq<EntryV>) -> Seq<OpV>
    decreases es.len(),
{
    if es.len() == 0 {
        Seq::empty()
    } else {
        seq![OpV::Push(NodeV::KV(es[0].key, es[0].value)), OpV::Child] + leaf_rest(
            es.drop_first(),
        )
    }
}

/// A sequential scan stops here: the snapshot is exhausted, or the entry's
/// key is past the bound.
pub open spec fn stop_here(es: Seq<EntryV>, pos: int, end: Option<Seq<u8>>) -> bool {
    pos >= es.len() || (end is Some && crate::cursor::lex_lt(end.unwrap(), es[pos].key))
}

/// The bytes `chunk(i)` serves: the encoded trunk for index 0, the encoded
/// leaf proof of the chunk's entry range otherwise.  A function of the
/// trunk, the boundary keys and the snapshot alone — never of the
/// producer's cursor or progress state.
pub open spec fn chunk_bytes(
    trunk: Seq<OpV>,
    bs: Seq<Seq<u8>>,
    es: Seq<EntryV>,
    i: int,
) -> Seq<u8> {
    if i == 0 {
        enc_ops(trunk)
    } else {
        enc_ops(leaf_ops_of(chunk_entries(es, bs, i)))
    }
}

/// The constructor's inputs describe one consistent snapshot: sorted
/// entries and, where subtrees were elided, trunk-derived boundary keys
/// that are strictly ascending, all present in the snapshot, and few
/// enough for the chunk count to fit in `usize`.
pub open spec fn new_ok(trunk: Seq<OpV>, has_more: bool, es: Seq<EntryV>) -> bool {
    &&& entries_sorted(es)
    &&& (has_more ==> boundaries_ok(kv_keys_of(trunk), es))
}

pub open spec fn boundaries_ok(bs: Seq<Seq<u8>>, es: Seq<EntryV>) -> bool {
    &&& keys_ascending(bs)
    &&& (forall|j: int| 0 <= j < bs.len() ==> has_key(es, #[trigger] bs[j]))
    &&& bs.len() + 2 <= usize::MAX
}

proof fn lemma_leaf_rest_snoc(es: Seq<EntryV>, e: EntryV)
    ensures
        leaf_rest(es.push(e)) == leaf_rest(es) + seq![
            OpV::Push(NodeV::KV(e.key, e.value)),
            OpV::Child,
        ],
    decreases es.len(),
{
    let tail = seq![OpV::Push(NodeV::KV(e.key, e.value)), OpV::Child];
    if es.len() == 0 {
        assert(es.push(e)[0] == e);
        assert(es.push(e).drop_first() =~= Seq::<EntryV>::empty());
        assert(leaf_rest(Seq::<EntryV>::empty()) =~= Seq::<OpV>::empty());
        assert(leaf_rest(es.push(e)) =~= leaf_rest(es) + tail);
    } else {
        assert(es.push(e)[0] == es[0]);
        assert(es.push(e).drop_first() =~= es.drop_first().push(e));
        lemma_leaf_rest_snoc(es.drop_first(), e);
        assert(leaf_rest(es.push(e)) =~= leaf_rest(es) + tail);
    }
}

proof fn lemma_leaf_ops_snoc(es: Seq<EntryV>, e: EntryV)
    ensures
        leaf_ops_of(es.push(e)) == leaf_ops_of(es) + (if es.len() == 0 {
            seq![OpV::Push(NodeV::KV(e.key, e.value))]
        } else {
            seq![OpV::Push(NodeV::KV(e.key, e.value)), OpV::Child]
        }),
{
    if es.len() == 0 {
        assert(es.push(e)[0] == e);
        assert(es.push(e).drop_first() =~= Seq::<EntryV>::empty());
        assert(leaf_rest(Seq::<EntryV>::empty()) =~= Seq::<OpV>::empty());
        assert(leaf_ops_of(es.push(e)) =~= leaf_ops_of(es) + seq![
            OpV::Push(NodeV::KV(e.key, e.value)),
        ]);
    } else {
        assert(es.push(e)[0] == es[0]);
        assert(es.push(e).drop_first() =~= es.drop_first().push(e));
        lemma_leaf_rest_snoc(es.drop_first(), e);
        assert(leaf_ops_of(es.push(e)) =~= leaf_ops_of(es) + seq![
            OpV::Push(NodeV::KV(e.key, e.value)),
            OpV::Child,
        ]);
    }
}

/// Whether the cursor's scan for the current leaf chunk is done.
fn past_end(cursor: &Cursor, end_key: Option<&Vec<u8>>) -> (r: bool)
    requires
        cursor.wf(),
    ensures
        r == stop_here(cursor.entries_v(), cursor.pos_v(), end_key.deep_view()),
{
    if !cursor.valid() {
        return true;
    }
    match end_key {
        None => false,
        Some(ek) => {
            let r = key_lt(ek, &cursor.current().key);
            proof {
                assert(end_key.deep_view() is Some);
                assert(end_key.deep_view().unwrap() =~= ek@);
            }
            r
        },
    }
}

/// Builds the proof of one leaf chunk: every entry from the cursor's
/// position up to and including the one whose key equals the bound (to the
/// snapshot's end if the bound is `None`), advancing the cursor past the
/// range as a side effect.
fn build_leaf_chunk(cursor: &mut Cursor, end_key: Option<&Vec<u8>>) -> (ops: Vec<Op>)
    requires
        old(cursor).wf(),
    ensures
        final(cursor).wf(),
        final(cursor).entries_v() == old(cursor).entries_v(),
        final(cursor).pos_v() == advance_past(
            old(cursor).entries_v(),
            old(cursor).pos_v(),
            end_key.deep_view(),
        ),
        ops.deep_view() == leaf_ops_of(
            old(cursor).entries_v().subrange(old(cursor).pos_v(), final(cursor).pos_v()),
        ),
{
    let ghost es0 = cursor.entries_v();
    let ghost p0 = cursor.pos_v();
    let ghost endv = end_key.deep_view();
    let ghost ap = advance_past(es0, p0, endv);
    proof {
        lemma_advance_past_props(es0, p0, endv);
    }
    let mut ops: Vec<Op> = Vec::new();
    let mut stop: bool = past_end(cursor, end_key);
    proof {
        assert(es0.subrange(p0, p0) =~= Seq::<EntryV>::empty());
        assert(ops.deep_view() =~= leaf_ops_of(es0.subrange(p0, p0)));
    }
    while !stop
        invariant
            cursor.wf(),
            cursor.entries_v() == es0,
            0 <= p0 <= cursor.pos_v() <= es0.len(),
            endv == end_key.deep_view(),
            advance_past(es0, cursor.pos_v(), endv) == ap,
            stop == stop_here(es0, cursor.pos_v(), endv),
            ops.deep_view() == leaf_ops_of(es0.subrange(p0, cursor.pos_v())),
        decreases es0.len() - cursor.pos_v(),
    {
        let ghost posg = cursor.pos_v();
        let ghost odv = ops.deep_view();
        let ghost sub = es0.subrange(p0, posg);
        let ghost ev = es0[posg];
        let e = cursor.current();
        let k = e.key.clone();
        let v = e.value.clone();
        proof {
            assert(k@ =~= e.key@);
            assert(v@ =~= e.value@);
            assert(e.deep_view() == ev);
            assert(ev.key == k@ && ev.value == v@);
        }
        let was_first = ops.len() == 0;
        ops.push(Op::Push(Node::KV(k, v)));
        if !was_first {
            ops.push(Op::Child);
        }
        cursor.advance();
        proof {
            assert(es0.subrange(p0, posg + 1) =~= sub.push(ev));
            lemma_leaf_ops_snoc(sub, ev);
            assert(odv.len() == leaf_ops_of(sub).len());
            if was_first {
                assert(sub.len() == 0);
                assert(ops.deep_view() =~= odv.push(OpV::Push(NodeV::KV(ev.key, ev.value))));
                assert(odv.push(OpV::Push(NodeV::KV(ev.key, ev.value))) =~= odv + seq![
                    OpV::Push(NodeV::KV(ev.key, ev.value)),
                ]);
            } else {
                assert(sub.len() != 0);
                assert(ops.deep_view() =~= odv.push(OpV::Push(NodeV::KV(ev.key, ev.value))).push(
                    OpV::Child,
                ));
                assert(odv.push(OpV::Push(NodeV::KV(ev.key, ev.value))).push(OpV::Child) =~= odv
                    + seq![OpV::Push(NodeV::KV(ev.key, ev.value)), OpV::Child]);
            }
            assert(advance_past(es0, posg, endv) == advance_past(es0, posg + 1, endv));
        }
        stop = past_end(cursor, end_key);
    }
    proof {
        assert(advance_past(es0, cursor.pos_v(), endv) == cursor.pos_v());
    }
    ops
}

/// Where one leaf chunk's range ends, the next one's begins: the scan
/// bounded by a boundary key stops exactly where a fresh seek past that
/// boundary key lands.
pub proof fn lemma_chunk_end_is_next_start(es: Seq<EntryV>, bs: Seq<Seq<u8>>, i: int)
    requires
        entries_sorted(es),
        boundaries_ok(bs, es),
        1 <= i <= bs.len(),
    ensures
        chunk_end(es, bs, i) == chunk_start(es, bs, i + 1),
        0 <= chunk_start(es, bs, i) <= chunk_end(es, bs, i) <= es.len(),
{
    let k = bs[i - 1];
    assert(has_key(es, k));
    let p = choose|p: int| 0 <= p < es.len() && (#[trigger] es[p]).key == k;
    lemma_seek_pos_found(es, k, p);
    let start = chunk_start(es, bs, i);
    if i == 1 {
        assert(start == 0);
    } else {
        let k2 = bs[i - 2];
        assert(has_key(es, k2));
        let q = choose|q: int| 0 <= q < es.len() && (#[trigger] es[q]).key == k2;
        lemma_seek_pos_found(es, k2, q);
        assert(lex_lt(k2, k));
        if p < q {
            assert(lex_lt(es[p].key, es[q].key));
            lemma_lex_asymmetric(es[p].key, es[q].key);
        }
        if p == q {
            lemma_lex_irreflexive(k);
        }
        assert(q < p);
        assert(start == q + 1);
    }
    lemma_advance_past_found(es, start, k, p);
    assert(chunk_end(es, bs, i) == p + 1);
    assert(chunk_start(es, bs, i + 1) == p + 1);
}

/// A `ChunkProducer` creates chunk proofs for trustlessly replicating a
/// whole tree.  Chunks can be generated on the fly in a random order, or
/// iterated in order for slightly better performance.
pub struct ChunkProducer {
    trunk: Vec<Op>,
    chunk_boundaries: Vec<Vec<u8>>,
    cursor: Cursor,
    index: usize,
}

impl View for ChunkProducer {
    type V = ProducerV;

    closed spec fn view(&self) -> ProducerV {
        ProducerV {
            trunk: self.trunk.deep_view(),
            boundaries: self.chunk_boundaries.deep_view(),
            entries: self.cursor.entries_v(),
            pos: self.cursor.pos_v(),
            index: self.index as int,
        }
    }
}

impl ChunkProducer {
    /// The producer's invariant: consistent boundary keys, and a cursor
    /// position that always agrees with the index of the next sequential
    /// chunk.
    pub open spec fn wf(&self) -> bool {
        let m = self@;
        &&& entries_sorted(m.entries)
        &&& boundaries_ok(m.boundaries, m.entries)
        &&& (m.boundaries == kv_keys_of(m.trunk) || m.boundaries.len() == 0)
        &&& 0 <= m.index <= chunk_count(m.boundaries)
        &&& (m.index == 0 ==> m.pos == 0)
        &&& (1 <= m.index < chunk_count(m.boundaries) ==> m.pos == chunk_start(
            m.entries,
            m.boundaries,
            m.index,
        ))
        &&& 0 <= m.pos <= m.entries.len()
    }

    /// Builds a producer over one snapshot: the trunk as produced by the
    /// tree walk, the walk's flag saying whether any subtrees were elided
    /// (so leaf chunks exist beyond the trunk), and the snapshot's sorted
    /// entries.  Derives the boundary keys from the trunk's key/value
    /// pushes and positions a fresh cursor at the first entry.  Fails
    /// exactly when the inputs are inconsistent.
    pub fn new(trunk: Vec<Op>, has_more: bool, entries: Vec<Entry>) -> (r: Result<
        ChunkProducer,
        Error,
    >)
        ensures
            match r {
                Ok(p) => {
                    &&& new_ok(trunk.deep_view(), has_more, entries.deep_view())
                    &&& p.wf()
                    &&& p@.trunk == trunk.deep_view()
                    &&& p@.boundaries == (if has_more {
                        kv_keys_of(trunk.deep_view())
                    } else {
                        Seq::<Seq<u8>>::empty()
                    })
                    &&& p@.entries == entries.deep_view()
                    &&& p@.index == 0
                    &&& p@.pos == 0
                },
                Err(e) => {
                    &&& e == Error::ConstructionFailure
                    &&& !new_ok(trunk.deep_view(), has_more, entries.deep_view())
                },
            },
    {
        let ghost tdv = trunk.deep_view();
        let ghost es = entries.deep_view();
        if !check_sorted(&entries) {
            return Err(Error::ConstructionFailure);
        }
        let mut boundaries: Vec<Vec<u8>> = Vec::new();
        if has_more {
            let mut i: usize = 0;
            proof {
                assert(tdv.skip(0) =~= tdv);
                assert(boundaries.deep_view() + kv_keys_of(tdv) =~= kv_keys_of(tdv));
            }
            while i < trunk.len()
                invariant
                    i <= trunk@.len(),
                    tdv == trunk.deep_view(),
                    tdv.len() == trunk@.len(),
                    kv_keys_of(tdv) == boundaries.deep_view() + kv_keys_of(tdv.skip(i as int)),
                decreases trunk@.len() - i,
            {
                let ghost bdv = boundaries.deep_view();
                let ghost opv = tdv[i as int];
                match &trunk[i] {
                    Op::Push(node) => {
                        match node {
                            Node::KV(k, _v) => {
                                let c = k.clone();
                                proof {
                                    assert(c@ =~= k@);
                                }
                                boundaries.push(c);
                                proof {
                                    assert(boundaries.deep_view() =~~= bdv.push(k@));
                                }
                            },
                            _ => {},
                        }
                    },
                    _ => {},
                }
                proof {
                    let s = tdv.skip(i as int);
                    assert(s[0] == opv);
                    assert(s.drop_first() =~= tdv.skip(i as int + 1));
                    match opv {
                        OpV::Push(NodeV::KV(kk, _vv)) => {
                            assert(kv_keys_of(s) == seq![kk] + kv_keys_of(tdv.skip(i as int + 1)));
                            assert(bdv + (seq![kk] + kv_keys_of(tdv.skip(i as int + 1)))
                                =~= bdv.push(kk) + kv_keys_of(tdv.skip(i as int + 1)));
                        },
                        _ => {},
                    }
                }
                i += 1;
            }
            proof {
                assert(tdv.skip(tdv.len() as int) =~= Seq::<OpV>::empty());
                assert(boundaries.deep_view() + Seq::<Seq<u8>>::empty() =~= boundaries.deep_view());
                assert(boundaries.deep_view() == kv_keys_of(tdv));
            }
        }
        let ghost bsv = boundaries.deep_view();
        if boundaries.len() > usize::MAX - 2 {
            proof {
                assert(!boundaries_ok(bsv, es));
            }
            return Err(Error::ConstructionFailure);
        }
        let mut j: usize = 0;
        while j < boundaries.len()
            invariant
                j <= boundaries@.len(),
                bsv == boundaries.deep_view(),
                bsv.len() == boundaries@.len(),
                es == entries.deep_view(),
                entries_sorted(es),
                tdv == trunk.deep_view(),
                has_more ==> bsv == kv_keys_of(tdv),
                !has_more ==> bsv.len() == 0,
                forall|t: int| 0 < t < j ==> #[trigger] crate::cursor::lex_lt(bsv[t - 1], bsv[t]),
                forall|t: int| 0 <= t < j ==> has_key(es, #[trigger] bsv[t]),
            decreases boundaries@.len() - j,
        {
            proof {
                assert(bsv[j as int] =~= boundaries@[j as int]@);
                if j > 0 {
                    assert(bsv[j - 1] =~= boundaries@[j - 1]@);
                }
            }
            if j > 0 && !key_lt(&boundaries[j - 1], &boundaries[j]) {
                proof {
                    assert(!crate::cursor::lex_lt(bsv[j - 1], bsv[j as int]));
                    assert(!keys_ascending(bsv));
                }
                return Err(Error::ConstructionFailure);
            }
            match find_key(&entries, &boundaries[j]) {
                Some(_p) => {},
                None => {
                    proof {
                        assert(!has_key(es, bsv[j as int]));
                    }
                    return Err(Error::ConstructionFailure);
                },
            }
            proof {
                assert(has_key(es, bsv[j as int]));
                if j > 0 {
                    assert(crate::cursor::lex_lt(bsv[j - 1], bsv[j as int]));
                }
            }
            j += 1;
        }
        proof {
            assert(adj_keys_ascending(bsv));
            lemma_adj_keys_ascending(bsv);
            assert(boundaries_ok(bsv, es));
            if !has_more {
                assert(boundaries.deep_view() =~= Seq::<Seq<u8>>::empty());
            }
        }
        let cursor = Cursor::new(entries);
        Ok(ChunkProducer { trunk, chunk_boundaries: boundaries, cursor, index: 0 })
    }

    /// The total number of chunks for the underlying tree: a pure function
    /// of the boundary keys.
    pub fn len(&self) -> (r: usize)
        requires
            self.wf(),
        ensures
            r == chunk_count(self@.boundaries),
    {
        let boundaries_len = self.chunk_boundaries.len();
        if boundaries_len == 0 {
            1
        } else {
            boundaries_len + 2
        }
    }

    /// Produces the chunk at the internal index from the cursor's current
    /// position, advancing both to the start of the next chunk's range.
    /// This is the sequential step `ChunkIter` drives; random access
    /// repositions the cursor first and then delegates here.
    fn next_chunk(&mut self) -> (r: Result<Vec<u8>, Error>)
        requires
            old(self).wf(),
            old(self)@.index < chunk_count(old(self)@.boundaries),
        ensures
            final(self).wf(),
            final(self)@.trunk == old(self)@.trunk,
            final(self)@.boundaries == old(self)@.boundaries,
            final(self)@.entries == old(self)@.entries,
            final(self)@.index == old(self)@.index + 1,
            r is Ok,
            r->Ok_0@ == chunk_bytes(
                old(self)@.trunk,
                old(self)@.boundaries,
                old(self)@.entries,
                old(self)@.index,
            ),
    {
        let ghost m = self@;
        if self.index == 0 {
            self.index = 1;
            return Ok(encode_ops(&self.trunk));
        }
        let ghost i = self.index as int;
        let end_key: Option<&Vec<u8>> = if self.index - 1 < self.chunk_boundaries.len() {
            Some(&self.chunk_boundaries[self.index - 1])
        } else {
            None
        };
        proof {
            match end_key {
                Some(ek) => {
                    assert(end_key.deep_view() is Some);
                    assert(end_key.deep_view().unwrap() =~= ek@);
                    assert(ek@ =~= m.boundaries[i - 1]);
                    assert(end_key.deep_view() == end_key_of(m.boundaries, i));
                },
                None => {
                    assert(end_key.deep_view() == end_key_of(m.boundaries, i));
                },
            }
            assert(self.cursor.pos_v() == chunk_start(m.entries, m.boundaries, i));
        }
        let ops = build_leaf_chunk(&mut self.cursor, end_key);
        self.index = self.index + 1;
        proof {
            assert(self.cursor.pos_v() == chunk_end(m.entries, m.boundaries, i));
            if i <= m.boundaries.len() {
                lemma_chunk_end_is_next_start(m.entries, m.boundaries, i);
            } else {
                lemma_advance_past_props(
                    m.entries,
                    chunk_start(m.entries, m.boundaries, i),
                    end_key_of(m.boundaries, i),
                );
            }
        }
        Ok(encode_ops(&ops))
    }

    /// Serves the chunk with the given index, repositioning the cursor for
    /// that index first: every call is independent of what was asked
    /// before, and repeated calls return identical bytes.  Fails with
    /// [`Error::IndexOutOfBounds`], changing nothing, exactly when `index`
    /// is at or past `len()`.
    pub fn chunk(&mut self, index: usize) -> (r: Result<Vec<u8>, Error>)
        requires
            old(self).wf(),
        ensures
            final(self).wf(),
            final(self)@.trunk == old(self)@.trunk,
            final(self)@.boundaries == old(self)@.boundaries,
            final(self)@.entries == old(self)@.entries,
            index < chunk_count(old(self)@.boundaries) ==> {
                &&& r is Ok
                &&& r->Ok_0@ == chunk_bytes(
                    old(self)@.trunk,
                    old(self)@.boundaries,
                    old(self)@.entries,
                    index as int,
                )
                &&& final(self)@.index == index + 1
            },
            index >= chunk_count(old(self)@.boundaries) ==> {
                &&& r is Err
                &&& r->Err_0 == Error::IndexOutOfBounds
                &&& final(self)@ == old(self)@
            },
    {
        let ghost m = self@;
        if index >= self.len() {
            return Err(Error::IndexOutOfBounds);
        }
        self.index = index;
        if index == 0 || index == 1 {
            self.cursor.seek_to_first();
        } else {
            self.cursor.seek(&self.chunk_boundaries[index - 2]);
            proof {
                let k = m.boundaries[index - 2];
                assert(self.chunk_boundaries@[index - 2]@ =~= k);
                assert(has_key(m.entries, k));
                let p = choose|p: int|
                    0 <= p < m.entries.len() && (#[trigger] m.entries[p]).key == k;
                lemma_seek_pos_found(m.entries, k, p);
                assert(self.cursor.pos_v() == p);
            }
            self.cursor.advance();
        }
        proof {
            assert(self@.index == index as int);
            assert(1 <= index ==> self.cursor.pos_v() == chunk_start(
                m.entries,
                m.boundaries,
                index as int,
            ));
            assert(self.wf());
        }
        self.next_chunk()
    }

    /// Turns the producer into a sequential iterator over its chunks.
    pub fn into_iter(self) -> (r: ChunkIter)
        ensures
            r.0 == self,
    {
        ChunkIter(self)
    }
}

/// A `ChunkIter` yields all the chunks for the underlying tree in order
/// (the first chunk is the trunk), then `None` permanently: it is finite
/// and not restartable.  It drives the producer's sequential step and never
/// seeks, the cheaper access pattern for exhaustive replication.
pub struct ChunkIter(pub ChunkProducer);

impl ChunkIter {
    /// The producer's *total* chunk count, as both bounds — deliberately
    /// not the number of chunks remaining; callers must account for this.
    pub fn size_hint(&self) -> (r: (usize, Option<usize>))
        requires
            self.0.wf(),
        ensures
            r.0 == chunk_count(self.0@.boundaries),
            r.1 == Some(r.0),
    {
        (self.0.len(), Some(self.0.len()))
    }

    /// Yields the bytes of the next chunk in order, or `None` once every
    /// chunk has been yielded.
    pub fn next(&mut self) -> (r: Option<Result<Vec<u8>, Error>>)
        requires
            old(self).0.wf(),
        ensures
            final(self).0.wf(),
            final(self).0@.trunk == old(self).0@.trunk,
            final(self).0@.boundaries == old(self).0@.boundaries,
            final(self).0@.entries == old(self).0@.entries,
            old(self).0@.index >= chunk_count(old(self).0@.boundaries) ==> r is None
                && final(self).0@ == old(self).0@,
            old(self).0@.index < chunk_count(old(self).0@.boundaries) ==> {
                &&& r is Some
                &&& r.unwrap() is Ok
                &&& r.unwrap()->Ok_0@ == chunk_bytes(
                    old(self).0@.trunk,
                    old(self).0@.boundaries,
                    old(self).0@.entries,
                    old(self).0@.index,
                )
                &&& final(self).0@.index == old(self).0@.index + 1
            },
    {
        if self.0.index >= self.0.len() {
            None
        } else {
            Some(self.0.next_chunk())
        }
    }
}

/// The key/value entries a proof's push operations carry, in order: what a
/// verifier recovers from a decoded leaf chunk.
pub open spec fn leaf_entries_of(ops: Seq<OpV>) -> Seq<EntryV>
    decreases ops.len(),
{
    if ops.len() == 0 {
        Seq::empty()
    } else {
        let rest = leaf_entries_of(ops.drop_first());
        match ops[0] {
            OpV::Push(NodeV::KV(k, v)) => seq![EntryV { key: k, value: v }] + rest,
            _ => rest,
        }
    }
}

/// Recovers the key/value entries a decoded proof carries, in order: the
/// executable counterpart of [`leaf_entries_of`].
pub fn entries_of_ops(ops: &Vec<Op>) -> (r: Vec<Entry>)
    ensures
        r.deep_view() == leaf_entries_of(ops.deep_view()),
{
    let ghost dv = ops.deep_view();
    let mut out: Vec<Entry> = Vec::new();
    let mut i: usize = 0;
    proof {
        assert(dv.skip(0) =~= dv);
        assert(out.deep_view() + leaf_entries_of(dv) =~= leaf_entries_of(dv));
    }
    while i < ops.len()
        invariant
            i <= ops@.len(),
            dv == ops.deep_view(),
            dv.len() == ops@.len(),
            leaf_entries_of(dv) == out.deep_view() + leaf_entries_of(dv.skip(i as int)),
        decreases ops@.len() - i,
    {
        let ghost odv = out.deep_view();
        let ghost opv = dv[i as int];
        match &ops[i] {
            Op::Push(node) => {
                match node {
                    Node::KV(k, v) => {
                        let kc = k.clone();
                        let vc = v.clone();
                        proof {
                            assert(kc@ =~= k@);
                            assert(vc@ =~= v@);
                        }
                        out.push(Entry { key: kc, value: vc });
                        proof {
                            assert(out.deep_view() =~= odv.push(EntryV { key: k@, value: v@ }));
                        }
                    },
                    _ => {},
                }
            },
            _ => {},
        }
        proof {
            let s = dv.skip(i as int);
            assert(s[0] == opv);
            assert(s.drop_first() =~= dv.skip(i as int + 1));
            match opv {
                OpV::Push(NodeV::KV(kk, vv)) => {
                    let e = EntryV { key: kk, value: vv };
                    assert(leaf_entries_of(s) == seq![e] + leaf_entries_of(dv.skip(i as int + 1)));
                    assert(odv + (seq![e] + leaf_entries_of(dv.skip(i as int + 1))) =~= odv.push(e)
                        + leaf_entries_of(dv.skip(i as int + 1)));
                },
                _ => {},
            }
        }
        i += 1;
    }
    proof {
        assert(dv.skip(dv.len() as int) =~= Seq::<OpV>::empty());
        assert(out.deep_view() + Seq::<EntryV>::empty() =~= out.deep_view());
    }
    out
}

proof fn lemma_leaf_rest_entries(es: Seq<EntryV>)
    ensures
        leaf_entries_of(leaf_rest(es)) == es,
    decreases es.len(),
{
    if es.len() == 0 {
        assert(leaf_entries_of(leaf_rest(es)) =~= es);
    } else {
        lemma_leaf_rest_entries(es.drop_first());
        let ops = leaf_rest(es);
        assert(ops[0] == OpV::Push(NodeV::KV(es[0].key, es[0].value)));
        let mid = seq![OpV::Child] + leaf_rest(es.drop_first());
        assert(ops.drop_first() =~= mid);
        assert(mid[0] == OpV::Child);
        assert(mid.drop_first() =~= leaf_rest(es.drop_first()));
        assert(leaf_entries_of(mid) == leaf_entries_of(mid.drop_first()));
        assert(leaf_entries_of(mid.drop_first()) == es.drop_first());
        assert(EntryV { key: es[0].key, value: es[0].value } == es[0]);
        assert(leaf_entries_of(ops) =~= es);
    }
}

/// A leaf chunk's operations carry back exactly the entries the chunk was
/// built from, in order.
pub proof fn lemma_leaf_entries_roundtrip(es: Seq<EntryV>)
    ensures
        leaf_entries_of(leaf_ops_of(es)) == es,
{
    if es.len() == 0 {
        assert(leaf_entries_of(leaf_ops_of(es)) =~= es);
    } else {
        lemma_leaf_rest_entries(es.drop_first());
        let ops = leaf_ops_of(es);
        assert(ops[0] == OpV::Push(NodeV::KV(es[0].key, es[0].value)));
        assert(ops.drop_first() =~= leaf_rest(es.drop_first()));
        assert(EntryV { key: es[0].key, value: es[0].value } == es[0]);
        assert(leaf_entries_of(ops) =~= es);
    }
}

/// The leaf entries of chunks 1 through `j`, concatenated in chunk order.
pub open spec fn leaf_entries_concat(es: Seq<EntryV>, bs: Seq<Seq<u8>>, j: int) -> Seq<EntryV>
    decreases j,
{
    if j <= 0 {
        Seq::empty()
    } else {
        leaf_entries_concat(es, bs, j - 1) + chunk_entries(es, bs, j)
    }
}

proof fn lemma_chunks_complete_upto(es: Seq<EntryV>, bs: Seq<Seq<u8>>, j: int)
    requires
        entries_sorted(es),
        boundaries_ok(bs, es),
        bs.len() > 0,
        1 <= j <= chunk_count(bs) - 1,
    ensures
        0 <= chunk_end(es, bs, j) <= es.len(),
        leaf_entries_concat(es, bs, j) == es.subrange(0, chunk_end(es, bs, j)),
    decreases j,
{
    if j == 1 {
        lemma_advance_past_props(es, 0, end_key_of(bs, 1));
        assert(chunk_start(es, bs, 1) == 0);
        assert(leaf_entries_concat(es, bs, 0) =~= Seq::<EntryV>::empty());
        assert(Seq::<EntryV>::empty() + chunk_entries(es, bs, 1) =~= chunk_entries(es, bs, 1));
    } else {
        lemma_chunks_complete_upto(es, bs, j - 1);
        lemma_chunk_end_is_next_start(es, bs, j - 1);
        lemma_advance_past_props(es, chunk_start(es, bs, j), end_key_of(bs, j));
        assert(es.subrange(0, chunk_end(es, bs, j - 1)) + es.subrange(
            chunk_start(es, bs, j),
            chunk_end(es, bs, j),
        ) =~= es.subrange(0, chunk_end(es, bs, j)));
    }
}

/// Completeness: the ranges of leaf chunks `1 .. len()` tile the whole
/// snapshot, so their entries, concatenated in chunk order, are exactly the
/// tree's full sorted entry list — no gaps, no overlaps, no reordering.
pub proof fn lemma_chunks_complete(es: Seq<EntryV>, bs: Seq<Seq<u8>>)
    requires
        entries_sorted(es),
        boundaries_ok(bs, es),
        bs.len() > 0,
    ensures
        leaf_entries_concat(es, bs, chunk_count(bs) - 1) == es,
{
    let last = chunk_count(bs) - 1;
    lemma_chunks_complete_upto(es, bs, last);
    lemma_chunk_end_is_next_start(es, bs, last - 1);
    lemma_advance_past_props(es, chunk_start(es, bs, last), end_key_of(bs, last));
    assert(end_key_of(bs, last) is None);
    assert(chunk_end(es, bs, last) == es.len());
    assert(es.subrange(0, es.len() as int) =~= es);
}

} // verus!
