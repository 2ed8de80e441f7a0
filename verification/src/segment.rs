//! One table segment: an ordered key-to-entry mapping with a running
//! approximate size (it only triggers rotation) and a serial that counts the
//! mutating calls applied since the segment chain began.

use vstd::prelude::*;
use crate::keys::{lex_lt, valid_key, key_compare, KeyOrder, lemma_lex_trichotomy,
    lemma_lex_transitive};

verus! {

/// One entry: a key with a live value, or a tombstone (an explicit delete
/// marker that masks older values for the same key).
pub struct SegmentEntry {
    pub key: Vec<u8>,
    pub value: Option<Vec<u8>>,
}

/// Bytes a value carries: none for a tombstone.
pub open spec fn val_len(v: Option<Seq<u8>>) -> int {
    match v {
        Some(b) => b.len() as int,
        None => 0,
    }
}

/// What a live entry contributes to the accounted size; tombstones count
/// nothing here.
pub open spec fn entry_bytes(e: (Seq<u8>, Option<Seq<u8>>)) -> int {
    if e.1 is Some {
        e.0.len() + val_len(e.1)
    } else {
        0
    }
}

/// The mapping carried by an entry sequence; a later entry for the same key
/// wins.
pub open spec fn map_of(es: Seq<(Seq<u8>, Option<Seq<u8>>)>) -> Map<Seq<u8>, Option<Seq<u8>>>
    decreases es.len(),
{
    if es.len() == 0 {
        Map::empty()
    } else {
        map_of(es.drop_last()).insert(es.last().0, es.last().1)
    }
}

/// Keys strictly increasing.
pub open spec fn sorted_entries(es: Seq<(Seq<u8>, Option<Seq<u8>>)>) -> bool {
    forall|i: int, j: int| 0 <= i < j < es.len() ==> lex_lt(es[i].0, es[j].0)
}

/// Every key well-formed and every value within the 32-bit length a segment
/// file can frame.
pub open spec fn valid_entries(es: Seq<(Seq<u8>, Option<Seq<u8>>)>) -> bool {
    forall|i: int|
        0 <= i < es.len() ==> valid_key((#[trigger] es[i]).0) && val_len(es[i].1) <= u32::MAX
}

/// Bytes held by live entries, key and value together.
pub open spec fn live_bytes(es: Seq<(Seq<u8>, Option<Seq<u8>>)>) -> int
    decreases es.len(),
{
    if es.len() == 0 {
        0
    } else {
        live_bytes(es.drop_last()) + entry_bytes(es.last())
    }
}

pub proof fn lemma_live_bytes_nonneg(es: Seq<(Seq<u8>, Option<Seq<u8>>)>)
    ensures
        live_bytes(es) >= 0,
    decreases es.len(),
{
    if es.len() > 0 {
        lemma_live_bytes_nonneg(es.drop_last());
    }
}

pub proof fn lemma_live_bytes_entry(es: Seq<(Seq<u8>, Option<Seq<u8>>)>, i: int)
    requires
        0 <= i < es.len(),
    ensures
        live_bytes(es) >= entry_bytes(es[i]),
    decreases es.len(),
{
    lemma_live_bytes_nonneg(es.drop_last());
    if i == es.len() - 1 {
    } else {
        lemma_live_bytes_entry(es.drop_last(), i);
    }
}

pub proof fn lemma_live_bytes_update(
    es: Seq<(Seq<u8>, Option<Seq<u8>>)>,
    i: int,
    v: Option<Seq<u8>>,
)
    requires
        0 <= i < es.len(),
    ensures
        live_bytes(es.update(i, (es[i].0, v))) == live_bytes(es) - entry_bytes(es[i])
            + entry_bytes((es[i].0, v)),
    decreases es.len(),
{
    let up = es.update(i, (es[i].0, v));
    if i == es.len() - 1 {
        assert(up.drop_last() =~= es.drop_last());
        assert(up.last() == (es[i].0, v));
    } else {
        lemma_live_bytes_update(es.drop_last(), i, v);
        assert(up.drop_last() =~= es.drop_last().update(i, (es[i].0, v)));
        assert(up.last() == es.last());
    }
}

pub proof fn lemma_live_bytes_insert(
    es: Seq<(Seq<u8>, Option<Seq<u8>>)>,
    i: int,
    x: (Seq<u8>, Option<Seq<u8>>),
)
    requires
        0 <= i <= es.len(),
    ensures
        live_bytes(es.insert(i, x)) == live_bytes(es) + entry_bytes(x),
    decreases es.len(),
{
    let ins = es.insert(i, x);
    if i == es.len() {
        assert(ins.drop_last() =~= es);
        assert(ins.last() == x);
    } else {
        lemma_live_bytes_insert(es.drop_last(), i, x);
        assert(ins.drop_last() =~= es.drop_last().insert(i, x));
        assert(ins.last() == es.last());
    }
}

/// The canonical accounting: key and value bytes of every entry, tombstone
/// keys included.
pub open spec fn canonical_size(es: Seq<(Seq<u8>, Option<Seq<u8>>)>) -> int
    decreases es.len(),
{
    if es.len() == 0 {
        0
    } else {
        canonical_size(es.drop_last()) + es.last().0.len() + val_len(es.last().1)
    }
}

pub proof fn lemma_canonical_nonneg(es: Seq<(Seq<u8>, Option<Seq<u8>>)>)
    ensures
        canonical_size(es) >= 0,
    decreases es.len(),
{
    if es.len() > 0 {
        lemma_canonical_nonneg(es.drop_last());
    }
}

pub proof fn lemma_canonical_update(es: Seq<(Seq<u8>, Option<Seq<u8>>)>, i: int, v: Option<Seq<u8>>)
    requires
        0 <= i < es.len(),
    ensures
        canonical_size(es.update(i, (es[i].0, v))) == canonical_size(es) - val_len(es[i].1)
            + val_len(v),
    decreases es.len(),
{
    let up = es.update(i, (es[i].0, v));
    if i == es.len() - 1 {
        assert(up.drop_last() =~= es.drop_last());
        assert(up.last() == (es[i].0, v));
    } else {
        lemma_canonical_update(es.drop_last(), i, v);
        assert(up.drop_last() =~= es.drop_last().update(i, (es[i].0, v)));
        assert(up.last() == es.last());
    }
}

pub proof fn lemma_canonical_insert(
    es: Seq<(Seq<u8>, Option<Seq<u8>>)>,
    i: int,
    x: (Seq<u8>, Option<Seq<u8>>),
)
    requires
        0 <= i <= es.len(),
    ensures
        canonical_size(es.insert(i, x)) == canonical_size(es) + x.0.len() + val_len(x.1),
    decreases es.len(),
{
    let ins = es.insert(i, x);
    if i == es.len() {
        assert(ins.drop_last() =~= es);
        assert(ins.last() == x);
    } else {
        lemma_canonical_insert(es.drop_last(), i, x);
        assert(ins.drop_last() =~= es.drop_last().insert(i, x));
        assert(ins.last() == es.last());
    }
}

/// A prefix never accounts more than the whole.
pub proof fn lemma_canonical_prefix_le(es: Seq<(Seq<u8>, Option<Seq<u8>>)>, i: int, j: int)
    requires
        0 <= i <= j <= es.len(),
    ensures
        canonical_size(es.take(i)) <= canonical_size(es.take(j)),
        j == es.len() ==> canonical_size(es.take(i)) <= canonical_size(es),
    decreases j - i,
{
    if i < j {
        lemma_canonical_prefix_le(es, i, j - 1);
        assert(es.take(j).drop_last() =~= es.take(j - 1));
        assert(es.take(j).last() == es[j - 1]);
    }
    if j == es.len() {
        assert(es.take(j) =~= es);
    }
}

/// Sortedness restricts to any prefix.
pub proof fn lemma_sorted_take(es: Seq<(Seq<u8>, Option<Seq<u8>>)>, n: int)
    requires
        sorted_entries(es),
        0 <= n <= es.len(),
    ensures
        sorted_entries(es.take(n)),
{
    assert forall|i: int, j: int|
        0 <= i < j < es.take(n).len() implies lex_lt(es.take(n)[i].0, es.take(n)[j].0) by {
        assert(es.take(n)[i] == es[i]);
        assert(es.take(n)[j] == es[j]);
    }
}

/// A sorted entry sequence carries one mapping entry per element: its domain
/// is finite with exactly as many keys as entries.
pub proof fn lemma_map_of_dom_len(es: Seq<(Seq<u8>, Option<Seq<u8>>)>)
    requires
        sorted_entries(es),
    ensures
        map_of(es).dom().finite(),
        map_of(es).dom().len() == es.len(),
    decreases es.len(),
{
    if es.len() > 0 {
        assert(es.drop_last() =~= es.take(es.len() - 1));
        lemma_sorted_take(es, es.len() - 1);
        lemma_map_of_dom_len(es.drop_last());
        assert forall|i: int| 0 <= i < es.drop_last().len() implies (#[trigger] es.drop_last(
        )[i]).0 != es.last().0 by {
            assert(es.drop_last()[i] == es[i]);
            lemma_lex_trichotomy(es[i].0, es.last().0);
        }
        lemma_map_of_absent(es.drop_last(), es.last().0);
    }
}

/// In a sorted entry sequence, the entry at `i` is what the mapping gives
/// for its key.
pub proof fn lemma_map_of_index(es: Seq<(Seq<u8>, Option<Seq<u8>>)>, i: int)
    requires
        sorted_entries(es),
        0 <= i < es.len(),
    ensures
        map_of(es).contains_key(es[i].0),
        map_of(es)[es[i].0] == es[i].1,
    decreases es.len(),
{
    if i == es.len() - 1 {
    } else {
        assert(es.drop_last() =~= es.take(es.len() - 1));
        lemma_sorted_take(es, es.len() - 1);
        assert(es.drop_last()[i] == es[i]);
        lemma_map_of_index(es.drop_last(), i);
        lemma_lex_trichotomy(es[i].0, es.last().0);
        assert(lex_lt(es[i].0, es.last().0));
    }
}

/// A key no entry holds is not in the mapping.
pub proof fn lemma_map_of_absent(es: Seq<(Seq<u8>, Option<Seq<u8>>)>, k: Seq<u8>)
    requires
        forall|i: int| 0 <= i < es.len() ==> (#[trigger] es[i]).0 != k,
    ensures
        !map_of(es).contains_key(k),
    decreases es.len(),
{
    if es.len() > 0 {
        assert forall|i: int| 0 <= i < es.drop_last().len() implies (#[trigger] es.drop_last()[i]).0
            != k by {
            assert(es.drop_last()[i] == es[i]);
        }
        lemma_map_of_absent(es.drop_last(), k);
    }
}

/// Replacing the value at `i` updates the mapping at that key alone.
pub proof fn lemma_map_of_update(es: Seq<(Seq<u8>, Option<Seq<u8>>)>, i: int, v: Option<Seq<u8>>)
    requires
        sorted_entries(es),
        0 <= i < es.len(),
    ensures
        map_of(es.update(i, (es[i].0, v))) == map_of(es).insert(es[i].0, v),
    decreases es.len(),
{
    let up = es.update(i, (es[i].0, v));
    if i == es.len() - 1 {
        assert(up.drop_last() =~= es.drop_last());
        assert(up.last() == (es[i].0, v));
        assert(map_of(es.drop_last()).insert(es[i].0, es[i].1).insert(es[i].0, v) =~= map_of(
            es.drop_last(),
        ).insert(es[i].0, v));
    } else {
        assert(es.drop_last() =~= es.take(es.len() - 1));
        lemma_sorted_take(es, es.len() - 1);
        assert(es.drop_last()[i] == es[i]);
        lemma_map_of_update(es.drop_last(), i, v);
        assert(up.drop_last() =~= es.drop_last().update(i, (es[i].0, v)));
        assert(up.last() == es.last());
        lemma_lex_trichotomy(es[i].0, es.last().0);
        assert(lex_lt(es[i].0, es.last().0));
        assert(map_of(es.drop_last()).insert(es[i].0, v).insert(es.last().0, es.last().1)
            =~= map_of(es.drop_last()).insert(es.last().0, es.last().1).insert(es[i].0, v));
    }
}

/// Inserting a fresh key at its sorted position inserts it into the mapping.
pub proof fn lemma_map_of_insert_at(
    es: Seq<(Seq<u8>, Option<Seq<u8>>)>,
    i: int,
    k: Seq<u8>,
    v: Option<Seq<u8>>,
)
    requires
        sorted_entries(es),
        0 <= i <= es.len(),
        forall|j: int| 0 <= j < i ==> lex_lt((#[trigger] es[j]).0, k),
        forall|j: int| i <= j < es.len() ==> lex_lt(k, (#[trigger] es[j]).0),
    ensures
        map_of(es.insert(i, (k, v))) == map_of(es).insert(k, v),
        sorted_entries(es.insert(i, (k, v))),
    decreases es.len(),
{
    let ins = es.insert(i, (k, v));
    assert forall|a: int, b: int| 0 <= a < b < ins.len() implies lex_lt(ins[a].0, ins[b].0) by {
        if a < i && b < i {
            assert(ins[a] == es[a] && ins[b] == es[b]);
        } else if a < i && b == i {
            assert(ins[a] == es[a]);
        } else if a < i && b > i {
            assert(ins[a] == es[a] && ins[b] == es[b - 1]);
            if b - 1 >= i {
                lemma_lex_transitive(es[a].0, k, es[b - 1].0);
            }
        } else if a == i {
            assert(ins[b] == es[b - 1]);
        } else {
            assert(ins[a] == es[a - 1] && ins[b] == es[b - 1]);
        }
    }
    if i == es.len() {
        assert(ins.drop_last() =~= es);
        assert(ins.last() == (k, v));
    } else {
        assert(es.drop_last() =~= es.take(es.len() - 1));
        lemma_sorted_take(es, es.len() - 1);
        assert forall|j: int| 0 <= j < i implies lex_lt((#[trigger] es.drop_last()[j]).0, k) by {
            assert(es.drop_last()[j] == es[j]);
        }
        assert forall|j: int|
            i <= j < es.drop_last().len() implies lex_lt(k, (#[trigger] es.drop_last()[j]).0) by {
            assert(es.drop_last()[j] == es[j]);
        }
        lemma_map_of_insert_at(es.drop_last(), i, k, v);
        assert(ins.drop_last() =~= es.drop_last().insert(i, (k, v)));
        assert(ins.last() == es.last());
        lemma_lex_trichotomy(k, es.last().0);
        assert(lex_lt(k, es.last().0));
        assert(map_of(es.drop_last()).insert(k, v).insert(es.last().0, es.last().1) =~= map_of(
            es.drop_last(),
        ).insert(es.last().0, es.last().1).insert(k, v));
    }
}

/// Copies a byte vector.
pub fn clone_bytes(v: &Vec<u8>) -> (r: Vec<u8>)
    ensures
        r@ == v@,
{
    let mut out: Vec<u8> = Vec::new();
    out.extend_from_slice(v.as_slice());
    proof {
        assert(out@ =~= v@);
    }
    out
}

/// Copies an optional byte vector.
pub fn clone_value(v: &Option<Vec<u8>>) -> (r: Option<Vec<u8>>)
    ensures
        r.deep_view() == v.deep_view(),
{
    match v {
        Some(b) => Some(clone_bytes(b)),
        None => None,
    }
}

/// A bounded chunk of sorted entries: the single mutable open segment, or an
/// immutable sealed one.
pub struct SSTableSegment {
    entries: Vec<SegmentEntry>,
    size: usize,
    serial: u64,
}

impl SSTableSegment {
    /// The entries, sorted by key.
    pub closed spec fn view_entries(self) -> Seq<(Seq<u8>, Option<Seq<u8>>)> {
        self.entries@.map_values(|e: SegmentEntry| (e.key@, e.value.deep_view()))
    }

    /// The key-to-entry mapping.
    pub open spec fn view_map(self) -> Map<Seq<u8>, Option<Seq<u8>>> {
        map_of(self.view_entries())
    }

    /// The running approximate size.
    pub closed spec fn spec_size(self) -> usize {
        self.size
    }

    /// The serial after the mutations this segment has seen.
    pub closed spec fn spec_serial(self) -> u64 {
        self.serial
    }

    /// The accounted size after applying a write (live value or tombstone):
    /// a live value's bytes are swapped out, any other entry adds its key and
    /// value bytes.
    pub open spec fn size_after_write(self, k: Seq<u8>, v: Option<Seq<u8>>) -> int {
        let m = self.view_map();
        if m.contains_key(k) && m[k] is Some {
            self.spec_size() - m[k]->0.len() + val_len(v)
        } else {
            self.spec_size() + k.len() + val_len(v)
        }
    }

    /// The accounted size after a tombstone: an existing live value stops
    /// counting; nothing else changes it.
    pub open spec fn size_after_delete(self, k: Seq<u8>) -> int {
        let m = self.view_map();
        if m.contains_key(k) && m[k] is Some {
            self.spec_size() - m[k]->0.len()
        } else {
            self.spec_size() as int
        }
    }

    /// Sorted, well-formed entries, with the accounted size covering at least
    /// the live bytes (so removals never underflow it).
    pub open spec fn wf(self) -> bool {
        &&& sorted_entries(self.view_entries())
        &&& valid_entries(self.view_entries())
        &&& live_bytes(self.view_entries()) <= self.spec_size()
    }

    /// A fresh empty segment seeded with the previous chain's terminal serial.
    pub fn new(serial: u64) -> (s: SSTableSegment)
        ensures
            s.wf(),
            s.view_entries() =~= Seq::<(Seq<u8>, Option<Seq<u8>>)>::empty(),
            s.view_map() =~= Map::<Seq<u8>, Option<Seq<u8>>>::empty(),
            s.spec_size() == 0,
            s.spec_serial() == serial,
    {
        let s = SSTableSegment { entries: Vec::new(), size: 0, serial };
        proof {
            assert(s.view_entries() =~= Seq::<(Seq<u8>, Option<Seq<u8>>)>::empty());
        }
        s
    }

    /// The running approximate size.
    pub fn size(&self) -> (n: usize)
        ensures
            n == self.spec_size(),
    {
        self.size
    }

    /// The serial.
    pub fn serial(&self) -> (n: u64)
        ensures
            n == self.spec_serial(),
    {
        self.serial
    }

    /// How many entries the segment holds.
    pub fn entry_count(&self) -> (n: usize)
        ensures
            n == self.view_entries().len(),
    {
        self.entries.len()
    }

    /// The entry at position `i`, in key order.
    pub fn entry_at(&self, i: usize) -> (e: &SegmentEntry)
        requires
            i < self.view_entries().len(),
        ensures
            (e.key@, e.value.deep_view()) == self.view_entries()[i as int],
    {
        let e = &self.entries[i];
        proof {
            assert(self.view_entries()[i as int] == (e.key@, e.value.deep_view()));
        }
        e
    }

    /// Where `key` stands: the index of its entry when the flag is set, else
    /// the index where it would be inserted.
    #[verifier::loop_isolation(false)]
    fn locate(&self, key: &[u8]) -> (r: (usize, bool))
        requires
            self.wf(),
        ensures
            r.0 <= self.view_entries().len(),
            forall|j: int| 0 <= j < r.0 ==> lex_lt((#[trigger] self.view_entries()[j]).0, key@),
            r.1 ==> r.0 < self.view_entries().len() && self.view_entries()[r.0 as int].0 == key@,
            !r.1 ==> forall|j: int|
                r.0 <= j < self.view_entries().len() ==> lex_lt(
                    key@,
                    (#[trigger] self.view_entries()[j]).0,
                ),
    {
        let ghost es = self.view_entries();
        let n = self.entries.len();
        let mut idx: usize = 0;
        while idx < n
            invariant
                0 <= idx <= n,
                forall|j: int| 0 <= j < idx ==> lex_lt((#[trigger] es[j]).0, key@),
            decreases n - idx,
        {
            let e = &self.entries[idx];
            proof {
                assert(es[idx as int] == (e.key@, e.value.deep_view()));
            }
            match key_compare(e.key.as_slice(), key) {
                KeyOrder::Before => {
                    idx = idx + 1;
                },
                KeyOrder::Same => {
                    return (idx, true);
                },
                KeyOrder::After => {
                    proof {
                        assert forall|j: int| idx <= j < n implies lex_lt(
                            key@,
                            (#[trigger] es[j]).0,
                        ) by {
                            if j > idx {
                                lemma_lex_transitive(key@, es[idx as int].0, es[j].0);
                            }
                        }
                    }
                    return (idx, false);
                },
            }
        }
        (idx, false)
    }

    /// The entry stored for `key`: a live value, a tombstone, or nothing.
    pub fn get(&self, key: &[u8]) -> (r: Option<Option<Vec<u8>>>)
        requires
            self.wf(),
        ensures
            match r {
                Some(v) => self.view_map().contains_key(key@) && v.deep_view()
                    == self.view_map()[key@],
                None => !self.view_map().contains_key(key@),
            },
    {
        let ghost es = self.view_entries();
        let (idx, found) = self.locate(key);
        if found {
            proof {
                lemma_map_of_index(es, idx as int);
            }
            let e = &self.entries[idx];
            proof {
                assert(es[idx as int] == (e.key@, e.value.deep_view()));
            }
            Some(clone_value(&e.value))
        } else {
            proof {
                assert forall|j: int| 0 <= j < es.len() implies (#[trigger] es[j]).0 != key@ by {
                    lemma_lex_trichotomy(es[j].0, key@);
                }
                lemma_map_of_absent(es, key@);
            }
            None
        }
    }

    /// Applies a write to this segment: a live value or a tombstone, counted
    /// in the running size, and one more serial.
    pub fn insert(&mut self, key: Vec<u8>, value: Option<Vec<u8>>)
        requires
            old(self).wf(),
            valid_key(key@),
            val_len(value.deep_view()) <= u32::MAX,
            old(self).spec_serial() < u64::MAX,
            old(self).spec_size() + key@.len() + val_len(value.deep_view()) <= usize::MAX,
        ensures
            final(self).wf(),
            final(self).view_map() == old(self).view_map().insert(key@, value.deep_view()),
            final(self).spec_serial() == old(self).spec_serial() + 1,
            final(self).spec_size() == old(self).size_after_write(key@, value.deep_view()),
            final(self).view_entries().len() == old(self).view_entries().len() + (
            if old(self).view_map().contains_key(key@) {
                0int
            } else {
                1int
            }),
            canonical_size(final(self).view_entries()) == canonical_size(old(self).view_entries())
                + (if old(self).view_map().contains_key(key@) {
                val_len(value.deep_view()) - val_len(old(self).view_map()[key@])
            } else {
                key@.len() + val_len(value.deep_view())
            }),
            (forall|j: int|
                0 <= j < old(self).view_entries().len() ==> lex_lt(
                    (#[trigger] old(self).view_entries()[j]).0,
                    key@,
                )) ==> final(self).view_entries() == old(self).view_entries().push(
                (key@, value.deep_view()),
            ),
    {
        let ghost es = old(self).view_entries();
        let ghost vv = value.deep_view();
        let (idx, found) = self.locate(key.as_slice());
        proof {
            if found && (forall|j: int| 0 <= j < es.len() ==> lex_lt((#[trigger] es[j]).0, key@)) {
                lemma_lex_trichotomy(es[idx as int].0, key@);
            }
            if !found && idx < es.len() && (forall|j: int|
                0 <= j < es.len() ==> lex_lt((#[trigger] es[j]).0, key@)) {
                lemma_lex_trichotomy(es[idx as int].0, key@);
            }
        }
        if found {
            proof {
                lemma_map_of_index(es, idx as int);
                lemma_map_of_update(es, idx as int, vv);
                lemma_live_bytes_update(es, idx as int, vv);
                lemma_live_bytes_entry(es, idx as int);
                lemma_live_bytes_nonneg(es);
                lemma_canonical_update(es, idx as int, vv);
                lemma_canonical_nonneg(es);
            }
            let new_len = match &value {
                Some(b) => b.len(),
                None => 0,
            };
            let e = &mut self.entries[idx];
            proof {
                assert(es[idx as int] == (e.key@, e.value.deep_view()));
            }
            let old_live_len = match &e.value {
                Some(ov) => ov.len(),
                None => 0,
            };
            let had_live = e.value.is_some();
            e.value = value;
            proof {
                assert(self.view_entries() =~= es.update(idx as int, (es[idx as int].0, vv)));
            }
            if had_live {
                self.size = self.size - old_live_len;
                self.size = self.size + new_len;
            } else {
                self.size = self.size + key.len();
                self.size = self.size + new_len;
            }
        } else {
            proof {
                assert forall|j: int| 0 <= j < es.len() implies (#[trigger] es[j]).0 != key@ by {
                    lemma_lex_trichotomy(es[j].0, key@);
                }
                lemma_map_of_absent(es, key@);
                lemma_map_of_insert_at(es, idx as int, key@, vv);
                lemma_live_bytes_insert(es, idx as int, (key@, vv));
                lemma_live_bytes_nonneg(es);
                lemma_canonical_insert(es, idx as int, (key@, vv));
            }
            let new_len = match &value {
                Some(b) => b.len(),
                None => 0,
            };
            let klen = key.len();
            self.entries.insert(idx, SegmentEntry { key, value });
            proof {
                assert(self.view_entries() =~= es.insert(
                    idx as int,
                    (self.entries@[idx as int].key@, vv),
                ));
            }
            self.size = self.size + klen;
            self.size = self.size + new_len;
        }
        self.serial = self.serial + 1;
    }

    /// Applies a tombstone: an existing live value stops counting toward the
    /// size, and one more serial is used.  A tombstone for an absent key is
    /// still recorded.
    pub fn delete(&mut self, key: Vec<u8>)
        requires
            old(self).wf(),
            valid_key(key@),
            old(self).spec_serial() < u64::MAX,
        ensures
            final(self).wf(),
            final(self).view_map() == old(self).view_map().insert(key@, None),
            final(self).spec_serial() == old(self).spec_serial() + 1,
            final(self).spec_size() == old(self).size_after_delete(key@),
            final(self).view_entries().len() == old(self).view_entries().len() + (
            if old(self).view_map().contains_key(key@) {
                0int
            } else {
                1int
            }),
            canonical_size(final(self).view_entries()) == canonical_size(old(self).view_entries())
                + (if old(self).view_map().contains_key(key@) {
                -val_len(old(self).view_map()[key@])
            } else {
                key@.len() as int
            }),
    {
        let ghost es = old(self).view_entries();
        let (idx, found) = self.locate(key.as_slice());
        if found {
            proof {
                lemma_map_of_index(es, idx as int);
                lemma_map_of_update(es, idx as int, None);
                lemma_live_bytes_update(es, idx as int, None);
                lemma_live_bytes_entry(es, idx as int);
                lemma_live_bytes_nonneg(es);
                lemma_canonical_update(es, idx as int, None);
            }
            let e = &mut self.entries[idx];
            proof {
                assert(es[idx as int] == (e.key@, e.value.deep_view()));
            }
            let old_live_len = match &e.value {
                Some(ov) => ov.len(),
                None => 0,
            };
            let had_live = e.value.is_some();
            e.value = None;
            proof {
                assert(self.view_entries() =~= es.update(
                    idx as int,
                    (es[idx as int].0, None::<Seq<u8>>),
                ));
            }
            if had_live {
                self.size = self.size - old_live_len;
            }
        } else {
            proof {
                assert forall|j: int| 0 <= j < es.len() implies (#[trigger] es[j]).0 != key@ by {
                    lemma_lex_trichotomy(es[j].0, key@);
                }
                lemma_map_of_absent(es, key@);
                lemma_map_of_insert_at(es, idx as int, key@, None);
                lemma_live_bytes_insert(es, idx as int, (key@, None));
                lemma_live_bytes_nonneg(es);
                lemma_canonical_insert(es, idx as int, (key@, None));
            }
            self.entries.insert(idx, SegmentEntry { key, value: None });
            proof {
                assert(self.view_entries() =~= es.insert(
                    idx as int,
                    (self.entries@[idx as int].key@, None::<Seq<u8>>),
                ));
            }
        }
        self.serial = self.serial + 1;
    }
}

} // verus!
