//! A seekable, key-ordered cursor over one immutable snapshot of the store's
//! entries: the flat substrate the leaf chunks are built from.

use vstd::prelude::*;

verus! {

/// One key/value entry of the snapshot.
#[derive(Clone, Debug, PartialEq, Eq)]
pub struct Entry {
    pub key: Vec<u8>,
    pub value: Vec<u8>,
}

/// Mathematical model of an [`Entry`].
pub struct EntryV {
    pub key: Seq<u8>,
    pub value: Seq<u8>,
}

impl DeepView for Entry {
    type V = EntryV;

    open spec fn deep_view(&self) -> EntryV {
        EntryV { key: self.key@, value: self.value@ }
    }
}

/// Strict lexicographic byte-string order: the order the store keeps its
/// keys in.  A proper prefix sorts before its extensions.
pub open spec fn lex_lt(a: Seq<u8>, b: Seq<u8>) -> bool
    decreases a.len(),
{
    if b.len() == 0 {
        false
    } else if a.len() == 0 {
        true
    } else if a[0] < b[0] {
        true
    } else if a[0] > b[0] {
        false
    } else {
        lex_lt(a.drop_first(), b.drop_first())
    }
}

pub proof fn lemma_lex_irreflexive(a: Seq<u8>)
    ensures
        !lex_lt(a, a),
    decreases a.len(),
{
    if a.len() > 0 {
        lemma_lex_irreflexive(a.drop_first());
    }
}

pub proof fn lemma_lex_asymmetric(a: Seq<u8>, b: Seq<u8>)
    requires
        lex_lt(a, b),
    ensures
        !lex_lt(b, a),
    decreases a.len(),
{
    if a.len() > 0 && b.len() > 0 && a[0] == b[0] {
        lemma_lex_asymmetric(a.drop_first(), b.drop_first());
    }
}

pub proof fn lemma_lex_transitive(a: Seq<u8>, b: Seq<u8>, c: Seq<u8>)
    requires
        lex_lt(a, b),
        lex_lt(b, c),
    ensures
        lex_lt(a, c),
    decreases a.len(),
{
    if a.len() > 0 && b.len() > 0 && c.len() > 0 && a[0] == b[0] && b[0] == c[0] {
        lemma_lex_transitive(a.drop_first(), b.drop_first(), c.drop_first());
    }
}

/// Two byte strings neither of which sorts before the other are equal.
pub proof fn lemma_lex_connected(a: Seq<u8>, b: Seq<u8>)
    requires
        !lex_lt(a, b),
        !lex_lt(b, a),
    ensures
        a == b,
    decreases a.len(),
{
    if a.len() == 0 || b.len() == 0 {
        assert(a.len() == 0 && b.len() == 0);
        assert(a =~= b);
    } else {
        assert(a[0] == b[0]);
        lemma_lex_connected(a.drop_first(), b.drop_first());
        assert(a =~= seq![a[0]] + a.drop_first());
        assert(b =~= seq![b[0]] + b.drop_first());
    }
}

/// Compares two keys in the store's order.
pub fn key_lt(a: &Vec<u8>, b: &Vec<u8>) -> (r: bool)
    ensures
        r == lex_lt(a@, b@),
{
    let mut i: usize = 0;
    proof {
        assert(a@.skip(0) =~= a@);
        assert(b@.skip(0) =~= b@);
    }
    loop
        invariant
            i <= a@.len(),
            i <= b@.len(),
            lex_lt(a@, b@) == lex_lt(a@.skip(i as int), b@.skip(i as int)),
        decreases a@.len() - i,
    {
        if i == b.len() {
            proof {
                assert(b@.skip(i as int).len() == 0);
            }
            return false;
        }
        if i == a.len() {
            proof {
                assert(a@.skip(i as int).len() == 0);
                assert(b@.skip(i as int).len() > 0);
            }
            return true;
        }
        let x: u8 = a[i];
        let y: u8 = b[i];
        proof {
            let sa = a@.skip(i as int);
            let sb = b@.skip(i as int);
            assert(sa[0] == x && sb[0] == y);
            assert(sa.drop_first() =~= a@.skip(i as int + 1));
            assert(sb.drop_first() =~= b@.skip(i as int + 1));
        }
        if x < y {
            return true;
        }
        if x > y {
            return false;
        }
        i += 1;
    }
}

/// Entries in strictly ascending key order: the store's invariant.
pub open spec fn entries_sorted(es: Seq<EntryV>) -> bool {
    forall|i: int, j: int| 0 <= i < j < es.len() ==> #[trigger] lex_lt(es[i].key, es[j].key)
}

/// Ascending order of each adjacent pair, which [`lemma_adj_sorted`] extends
/// to every pair.
pub open spec fn adj_sorted(es: Seq<EntryV>) -> bool {
    forall|i: int| 0 < i < es.len() ==> #[trigger] lex_lt(es[i - 1].key, es[i].key)
}

proof fn lemma_lt_span(es: Seq<EntryV>, i: int, j: int)
    requires
        adj_sorted(es),
        0 <= i < j < es.len(),
    ensures
        lex_lt(es[i].key, es[j].key),
    decreases j - i,
{
    assert(lex_lt(es[j - 1].key, es[j].key));
    if j == i + 1 {
    } else {
        lemma_lt_span(es, i, j - 1);
        lemma_lex_transitive(es[i].key, es[j - 1].key, es[j].key);
    }
}

pub proof fn lemma_adj_sorted(es: Seq<EntryV>)
    requires
        adj_sorted(es),
    ensures
        entries_sorted(es),
{
    assert forall|i: int, j: int| 0 <= i < j < es.len() implies #[trigger] lex_lt(
        es[i].key,
        es[j].key,
    ) by {
        lemma_lt_span(es, i, j);
    }
}

/// Checks that the entries are strictly sorted by key.
pub fn check_sorted(entries: &Vec<Entry>) -> (r: bool)
    ensures
        r == entries_sorted(entries.deep_view()),
{
    let ghost es = entries.deep_view();
    let mut i: usize = 1;
    while i < entries.len()
        invariant
            1 <= i,
            i <= es.len() || es.len() == 0,
            es == entries.deep_view(),
            es.len() == entries@.len(),
            forall|j: int| 0 < j < i && j < es.len() ==> #[trigger] lex_lt(es[j - 1].key, es[j].key),
        decreases entries@.len() - i,
    {
        if !key_lt(&entries[i - 1].key, &entries[i].key) {
            proof {
                assert(!lex_lt(es[i - 1].key, es[i as int].key));
                assert(!entries_sorted(es));
            }
            return false;
        }
        i += 1;
    }
    proof {
        assert(adj_sorted(es));
        lemma_adj_sorted(es);
    }
    true
}

/// The position the store's seek lands on: the first entry whose key is not
/// below `key`, or the entry count if every key is below it.
pub open spec fn seek_pos(es: Seq<EntryV>, key: Seq<u8>) -> int
    decreases es.len(),
{
    if es.len() == 0 {
        0
    } else if !lex_lt(es[0].key, key) {
        0
    } else {
        1 + seek_pos(es.drop_first(), key)
    }
}

pub proof fn lemma_seek_pos_props(es: Seq<EntryV>, key: Seq<u8>)
    ensures
        0 <= seek_pos(es, key) <= es.len(),
        forall|i: int| 0 <= i < seek_pos(es, key) ==> lex_lt(#[trigger] es[i].key, key),
        seek_pos(es, key) < es.len() ==> !lex_lt(es[seek_pos(es, key)].key, key),
    decreases es.len(),
{
    if es.len() > 0 && lex_lt(es[0].key, key) {
        lemma_seek_pos_props(es.drop_first(), key);
        let tail = es.drop_first();
        assert forall|i: int| 0 <= i < seek_pos(es, key) implies lex_lt(
            #[trigger] es[i].key,
            key,
        ) by {
            if i > 0 {
                assert(es[i] == tail[i - 1]);
            }
        }
        if seek_pos(es, key) < es.len() {
            assert(es[seek_pos(es, key)] == tail[seek_pos(tail, key) as int]);
        }
    }
}

/// A seek for a key the snapshot holds lands exactly on its entry.
pub proof fn lemma_seek_pos_found(es: Seq<EntryV>, key: Seq<u8>, p: int)
    requires
        entries_sorted(es),
        0 <= p < es.len(),
        es[p].key == key,
    ensures
        seek_pos(es, key) == p,
{
    lemma_seek_pos_props(es, key);
    let sp = seek_pos(es, key);
    lemma_lex_irreflexive(key);
    if sp < p {
        assert(lex_lt(es[sp].key, es[p].key));
        assert(!lex_lt(es[sp].key, key));
    }
    if p < sp {
        assert(lex_lt(es[p].key, key));
    }
}

/// Where a scan from `from` that takes every entry with key at or below
/// `end` (every remaining entry, if `end` is `None`) stops.
pub open spec fn advance_past(es: Seq<EntryV>, from: int, end: Option<Seq<u8>>) -> int
    recommends
        0 <= from <= es.len(),
    decreases es.len() - from
        when 0 <= from <= es.len()
{
    if from >= es.len() {
        from
    } else if end is Some && lex_lt(end.unwrap(), es[from].key) {
        from
    } else {
        advance_past(es, from + 1, end)
    }
}

pub proof fn lemma_advance_past_props(es: Seq<EntryV>, from: int, end: Option<Seq<u8>>)
    requires
        0 <= from <= es.len(),
    ensures
        from <= advance_past(es, from, end) <= es.len(),
        forall|i: int|
            from <= i < advance_past(es, from, end) ==> !lex_lt(end.unwrap(), #[trigger] es[i].key)
                || end is None,
        advance_past(es, from, end) < es.len() ==> end is Some && lex_lt(
            end.unwrap(),
            es[advance_past(es, from, end)].key,
        ),
    decreases es.len() - from,
{
    if from < es.len() && !(end is Some && lex_lt(end.unwrap(), es[from].key)) {
        lemma_advance_past_props(es, from + 1, end);
    }
}

/// A scan bounded by a key the snapshot holds stops right past its entry.
pub proof fn lemma_advance_past_found(es: Seq<EntryV>, from: int, k: Seq<u8>, p: int)
    requires
        entries_sorted(es),
        0 <= from <= p < es.len(),
        es[p].key == k,
    ensures
        advance_past(es, from, Some(k)) == p + 1,
{
    lemma_advance_past_props(es, from, Some(k));
    let ap = advance_past(es, from, Some(k));
    if ap <= p {
        assert(lex_lt(k, es[ap].key));
        if ap < p {
            assert(lex_lt(es[ap].key, es[p].key));
            lemma_lex_asymmetric(es[ap].key, es[p].key);
        } else {
            lemma_lex_irreflexive(k);
        }
    }
    if ap > p + 1 {
        assert(lex_lt(es[p].key, es[p + 1].key));
        assert(!lex_lt(k, es[p + 1].key));
    }
}

/// The snapshot holds an entry with this key.
pub open spec fn has_key(es: Seq<EntryV>, key: Seq<u8>) -> bool {
    exists|p: int| 0 <= p < es.len() && (#[trigger] es[p]).key == key
}

/// A key list in strictly ascending order.
pub open spec fn keys_ascending(bs: Seq<Seq<u8>>) -> bool {
    forall|i: int, j: int| 0 <= i < j < bs.len() ==> #[trigger] lex_lt(bs[i], bs[j])
}

/// Ascending order of each adjacent pair of keys.
pub open spec fn adj_keys_ascending(bs: Seq<Seq<u8>>) -> bool {
    forall|i: int| 0 < i < bs.len() ==> #[trigger] lex_lt(bs[i - 1], bs[i])
}

proof fn lemma_keys_lt_span(bs: Seq<Seq<u8>>, i: int, j: int)
    requires
        adj_keys_ascending(bs),
        0 <= i < j < bs.len(),
    ensures
        lex_lt(bs[i], bs[j]),
    decreases j - i,
{
    assert(lex_lt(bs[j - 1], bs[j]));
    if j == i + 1 {
    } else {
        lemma_keys_lt_span(bs, i, j - 1);
        lemma_lex_transitive(bs[i], bs[j - 1], bs[j]);
    }
}

pub proof fn lemma_adj_keys_ascending(bs: Seq<Seq<u8>>)
    requires
        adj_keys_ascending(bs),
    ensures
        keys_ascending(bs),
{
    assert forall|i: int, j: int| 0 <= i < j < bs.len() implies #[trigger] lex_lt(
        bs[i],
        bs[j],
    ) by {
        lemma_keys_lt_span(bs, i, j);
    }
}

/// Looks a key up in the sorted entries: its position, or `None` if no
/// entry has it.
pub fn find_key(entries: &Vec<Entry>, key: &Vec<u8>) -> (r: Option<usize>)
    requires
        entries_sorted(entries.deep_view()),
    ensures
        match r {
            Some(p) => p < entries.deep_view().len() && entries.deep_view()[p as int].key == key@,
            None => !has_key(entries.deep_view(), key@),
        },
{
    let ghost es = entries.deep_view();
    proof {
        lemma_seek_pos_props(es, key@);
    }
    let n: usize = entries.len();
    let mut i: usize = 0;
    while i < n && key_lt(&entries[i].key, key)
        invariant
            es == entries.deep_view(),
            n == es.len(),
            0 <= i <= seek_pos(es, key@),
            seek_pos(es, key@) <= es.len(),
            forall|j: int| 0 <= j < seek_pos(es, key@) ==> #[trigger] lex_lt(es[j].key, key@),
            seek_pos(es, key@) < es.len() ==> !lex_lt(es[seek_pos(es, key@)].key, key@),
        decreases es.len() - i,
    {
        i += 1;
    }
    proof {
        let sp = seek_pos(es, key@);
        if i < n {
            assert(!lex_lt(es[i as int].key, key@));
            assert(i as int >= sp);
        }
        assert(i as int == sp);
    }
    if i < n && !key_lt(key, &entries[i].key) {
        proof {
            lemma_lex_connected(es[i as int].key, key@);
        }
        Some(i)
    } else {
        proof {
            let sp = seek_pos(es, key@);
            if has_key(es, key@) {
                let p = choose|p: int| 0 <= p < es.len() && (#[trigger] es[p]).key == key@;
                lemma_seek_pos_found(es, key@, p);
                lemma_lex_irreflexive(key@);
            }
        }
        None
    }
}

/// A bidirectional, seekable cursor over the snapshot's sorted entries.
/// Owns one immutable copy of the entries and a position into them.
pub struct Cursor {
    entries: Vec<Entry>,
    pos: usize,
}

impl Cursor {
    /// The snapshot's entries, in key order.
    pub closed spec fn entries_v(&self) -> Seq<EntryV> {
        self.entries.deep_view()
    }

    /// The cursor's position: an index into the entries, or their count if
    /// the cursor is exhausted.
    pub closed spec fn pos_v(&self) -> int {
        self.pos as int
    }

    pub open spec fn wf(&self) -> bool {
        &&& entries_sorted(self.entries_v())
        &&& 0 <= self.pos_v() <= self.entries_v().len()
    }

    /// Opens a cursor over a snapshot, positioned at the first entry.
    pub fn new(entries: Vec<Entry>) -> (r: Self)
        requires
            entries_sorted(entries.deep_view()),
        ensures
            r.wf(),
            r.entries_v() == entries.deep_view(),
            r.pos_v() == 0,
    {
        Cursor { entries, pos: 0 }
    }

    /// Repositions the cursor at the first entry.
    pub fn seek_to_first(&mut self)
        ensures
            final(self).entries_v() == old(self).entries_v(),
            final(self).pos_v() == 0,
            entries_sorted(old(self).entries_v()) ==> final(self).wf(),
    {
        self.pos = 0;
    }

    /// Repositions the cursor at the first entry whose key is at or above
    /// `key`, or past the end if there is none.
    pub fn seek(&mut self, key: &Vec<u8>)
        requires
            old(self).wf(),
        ensures
            final(self).wf(),
            final(self).entries_v() == old(self).entries_v(),
            final(self).pos_v() == seek_pos(old(self).entries_v(), key@),
    {
        let ghost es = self.entries_v();
        proof {
            lemma_seek_pos_props(es, key@);
        }
        let n: usize = self.entries.len();
        let mut i: usize = 0;
        while i < n && key_lt(&self.entries[i].key, key)
            invariant
                n == es.len(),
                es == self.entries.deep_view(),
                0 <= i <= seek_pos(es, key@),
                seek_pos(es, key@) <= es.len(),
                forall|j: int| 0 <= j < seek_pos(es, key@) ==> lex_lt(#[trigger] es[j].key, key@),
                seek_pos(es, key@) < es.len() ==> !lex_lt(es[seek_pos(es, key@)].key, key@),
            decreases es.len() - i,
        {
            i += 1;
        }
        self.pos = i;
        proof {
            let sp = seek_pos(es, key@);
            if i < n {
                assert(!lex_lt(es[i as int].key, key@));
                assert(i as int >= sp);
            }
        }
    }

    /// Whether the cursor stands on an entry.
    pub fn valid(&self) -> (r: bool)
        ensures
            r == (self.pos_v() < self.entries_v().len()),
    {
        self.pos < self.entries.len()
    }

    /// The entry the cursor stands on.
    pub fn current(&self) -> (e: &Entry)
        requires
            self.pos_v() < self.entries_v().len(),
        ensures
            e.deep_view() == self.entries_v()[self.pos_v()],
    {
        &self.entries[self.pos]
    }

    /// Steps to the next entry.
    pub fn advance(&mut self)
        requires
            old(self).pos_v() < old(self).entries_v().len(),
        ensures
            final(self).entries_v() == old(self).entries_v(),
            final(self).pos_v() == old(self).pos_v() + 1,
            old(self).wf() ==> final(self).wf(),
    {
        let n: usize = self.entries.len();
        self.pos = self.pos + 1;
    }
}

} // verus!
