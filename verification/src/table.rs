//! The sorted segment table: an ordered sequence of bounded segments, the
//! newest open and mutable, all earlier ones sealed, together with a model of
//! the data directory that sealed segments persist into.  The caller mirrors
//! that model to real files; a sealed file is never overwritten.

use vstd::prelude::*;
use vstd::string::StringSliceAdditionalSpecFns;
use vstd::string::StrSliceExecFns;
use crate::StorageError;
use crate::keys::{valid_key, lex_lt};
use crate::segment::{SSTableSegment, map_of, val_len, canonical_size, lemma_canonical_nonneg,
    lemma_map_of_absent, lemma_map_of_index, clone_bytes, clone_value};
use crate::codec::{encode_entries, parse_records, replay_size, encode_segment, decode_segment};

verus! {

/// A persisted segment file in the data directory model: the serial its name
/// carries, and its bytes.
pub struct DiskFile {
    pub serial: u64,
    pub bytes: Vec<u8>,
}

/// A directory entry handed in at recovery: a file name and the file's bytes.
pub struct NamedFile {
    pub name: Vec<u8>,
    pub bytes: Vec<u8>,
}

/// Value of a most-significant-first decimal digit string.
pub open spec fn dec_value(digits: Seq<u8>) -> int
    decreases digits.len(),
{
    if digits.len() == 0 {
        0
    } else {
        dec_value(digits.drop_last()) * 10 + (digits.last() - 0x30)
    }
}

/// Digits only.
pub open spec fn all_digits(s: Seq<u8>) -> bool {
    forall|i: int| 0 <= i < s.len() ==> 0x30 <= #[trigger] s[i] <= 0x39
}

/// A well-formed segment file name: one or more decimal digits naming a
/// serial that fits 64 bits, then the extension `.sst`.
pub open spec fn parse_sst_name(name: Seq<u8>) -> Option<u64> {
    let stem = name.take(name.len() - 4);
    if name.len() >= 5 && name.skip(name.len() - 4) == seq![0x2eu8, 0x73u8, 0x73u8, 0x74u8]
        && all_digits(stem) && dec_value(stem) <= u64::MAX {
        Some(dec_value(stem) as u64)
    } else {
        None
    }
}

pub proof fn lemma_dec_value_nonneg(s: Seq<u8>)
    requires
        all_digits(s),
    ensures
        dec_value(s) >= 0,
    decreases s.len(),
{
    if s.len() > 0 {
        assert forall|i: int| 0 <= i < s.drop_last().len() implies 0x30 <= #[trigger] s.drop_last(
        )[i] <= 0x39 by {
            assert(s.drop_last()[i] == s[i]);
        }
        lemma_dec_value_nonneg(s.drop_last());
    }
}

/// Each further digit can only grow the value.
pub proof fn lemma_dec_value_prefix_le(s: Seq<u8>, i: int, j: int)
    requires
        all_digits(s),
        0 <= i <= j <= s.len(),
    ensures
        dec_value(s.take(i)) <= dec_value(s.take(j)),
    decreases j - i,
{
    if i < j {
        lemma_dec_value_prefix_le(s, i, j - 1);
        let tj = s.take(j);
        assert(tj.drop_last() =~= s.take(j - 1));
        assert forall|x: int| 0 <= x < s.take(j - 1).len() implies 0x30 <= #[trigger] s.take(
            j - 1,
        )[x] <= 0x39 by {
            assert(s.take(j - 1)[x] == s[x]);
        }
        lemma_dec_value_nonneg(s.take(j - 1));
        assert(0x30 <= tj.last() <= 0x39);
    }
}

/// Decides `parse_sst_name`.
#[verifier::loop_isolation(false)]
pub fn parse_file_name(name: &Vec<u8>) -> (r: Option<u64>)
    ensures
        r == parse_sst_name(name@),
{
    let n = name.len();
    if n < 5 {
        return None;
    }
    if !(name[n - 4] == 0x2e && name[n - 3] == 0x73 && name[n - 2] == 0x73 && name[n - 1]
        == 0x74) {
        proof {
            assert(name@.skip(n - 4 as int) != seq![0x2eu8, 0x73u8, 0x73u8, 0x74u8]) by {
                let sfx = name@.skip(n - 4 as int);
                if sfx == seq![0x2eu8, 0x73u8, 0x73u8, 0x74u8] {
                    assert(sfx[0] == 0x2e && sfx[1] == 0x73 && sfx[2] == 0x73 && sfx[3] == 0x74);
                    assert(sfx[0] == name@[n - 4 as int]);
                    assert(sfx[1] == name@[n - 3 as int]);
                    assert(sfx[2] == name@[n - 2 as int]);
                    assert(sfx[3] == name@[n - 1 as int]);
                }
            }
        }
        return None;
    }
    proof {
        assert(name@.skip(n - 4 as int) =~= seq![0x2eu8, 0x73u8, 0x73u8, 0x74u8]);
    }
    let ghost stem = name@.take(n - 4 as int);
    let stem_len = n - 4;
    let mut value: u64 = 0;
    let mut i: usize = 0;
    while i < stem_len
        invariant
            0 <= i <= stem_len,
            forall|j: int| 0 <= j < i ==> 0x30 <= #[trigger] stem[j] <= 0x39,
            value as int == dec_value(stem.take(i as int)),
        decreases stem_len - i,
    {
        let d = name[i];
        proof {
            assert(stem[i as int] == name@[i as int]);
        }
        if d < 0x30 || d > 0x39 {
            return None;
        }
        let digit = (d - 0x30) as u64;
        proof {
            assert(stem.take(i as int + 1).drop_last() =~= stem.take(i as int));
            assert(stem.take(i as int + 1).last() == stem[i as int]);
            assert forall|x: int| 0 <= x < i + 1 implies 0x30 <= #[trigger] stem.take(
                i as int + 1,
            )[x] <= 0x39 by {
                assert(stem.take(i as int + 1)[x] == stem[x]);
            }
        }
        if value > (u64::MAX - digit) / 10 {
            proof {
                assert(dec_value(stem.take(i as int + 1)) == 10 * (value as int) + digit);
                assert(10 * (value as int) + digit > u64::MAX) by {
                    assert(value as int >= (u64::MAX - digit) / 10 + 1);
                    assert(10 * ((u64::MAX - digit) as int / 10 + 1) + digit > u64::MAX) by (nonlinear_arith);
                    assert(10 * (value as int) >= 10 * ((u64::MAX - digit) as int / 10 + 1)) by (nonlinear_arith)
                        requires value as int >= (u64::MAX - digit) as int / 10 + 1;
                }
                if all_digits(stem) {
                    lemma_dec_value_prefix_le(stem, i as int + 1, stem.len() as int);
                    assert(stem.take(stem.len() as int) =~= stem);
                    assert(dec_value(stem) > u64::MAX);
                }
            }
            return None;
        }
        proof {
            assert((value as int) <= (u64::MAX - digit) as int / 10);
            assert(10 * (value as int) + digit <= u64::MAX) by (nonlinear_arith)
                requires
                    0 <= value as int <= (u64::MAX - digit) as int / 10,
                    0 <= digit <= 9,
            ;
        }
        value = value * 10 + digit;
        i = i + 1;
    }
    proof {
        assert(stem.take(stem_len as int) =~= stem);
        assert(all_digits(stem));
    }
    Some(value)
}

/// The reading view of a segment stack: segments folded oldest to newest, a
/// newer entry shadowing an older one.
pub open spec fn table_map(segs: Seq<SSTableSegment>) -> Map<Seq<u8>, Option<Seq<u8>>>
    decreases segs.len(),
{
    if segs.len() == 0 {
        Map::empty()
    } else {
        table_map(segs.drop_last()).union_prefer_right(segs.last().view_map())
    }
}

/// What a reader sees in a view: the entry's value, or nothing for a
/// tombstone or an absent key.
pub open spec fn view_lookup(m: Map<Seq<u8>, Option<Seq<u8>>>, k: Seq<u8>) -> Option<Seq<u8>> {
    if m.contains_key(k) {
        m[k]
    } else {
        None
    }
}

/// What a reader sees for a key: the newest entry's value, or nothing for a
/// tombstone or an absent key.
pub open spec fn table_lookup(segs: Seq<SSTableSegment>, k: Seq<u8>) -> Option<Seq<u8>> {
    view_lookup(table_map(segs), k)
}

/// The most recent write to a key decides what a reader sees: after a live
/// write the key reads as that value, after a delete it reads as absent, and
/// every other key reads as it did before.  With `insert`, `delete` and `get`
/// each contracted over the same view, this holds across all operation
/// sequences.
pub proof fn lemma_last_write_wins(
    m: Map<Seq<u8>, Option<Seq<u8>>>,
    k: Seq<u8>,
    v: Seq<u8>,
    other: Seq<u8>,
)
    ensures
        view_lookup(m.insert(k, Some(v)), k) == Some(v),
        view_lookup(m.insert(k, None), k) == None::<Seq<u8>>,
        other != k ==> view_lookup(m.insert(k, Some(v)), other) == view_lookup(m, other),
        other != k ==> view_lookup(m.insert(k, None), other) == view_lookup(m, other),
{
}

/// A segment with nothing in it does not change the reading view.
pub proof fn lemma_table_map_push_empty(segs: Seq<SSTableSegment>, seg: SSTableSegment)
    requires
        seg.view_map() == Map::<Seq<u8>, Option<Seq<u8>>>::empty(),
    ensures
        table_map(segs.push(seg)) == table_map(segs),
{
    assert(segs.push(seg).drop_last() =~= segs);
    assert(segs.push(seg).last() == seg);
    assert(table_map(segs).union_prefer_right(seg.view_map()) =~= table_map(segs));
}

/// Inserting into the newest segment inserts into the reading view.
pub proof fn lemma_union_insert_right(
    a: Map<Seq<u8>, Option<Seq<u8>>>,
    b: Map<Seq<u8>, Option<Seq<u8>>>,
    k: Seq<u8>,
    v: Option<Seq<u8>>,
)
    ensures
        a.union_prefer_right(b.insert(k, v)) == a.union_prefer_right(b).insert(k, v),
{
    assert(a.union_prefer_right(b.insert(k, v)) =~= a.union_prefer_right(b).insert(k, v));
}

/// Replacing the newest segment by one whose mapping took one insert changes
/// the reading view by that insert.
pub proof fn lemma_table_map_update_last(
    segs: Seq<SSTableSegment>,
    tail: SSTableSegment,
    k: Seq<u8>,
    v: Option<Seq<u8>>,
)
    requires
        segs.len() >= 1,
        tail.view_map() == segs.last().view_map().insert(k, v),
    ensures
        table_map(segs.update(segs.len() - 1, tail)) == table_map(segs).insert(k, v),
{
    let up = segs.update(segs.len() - 1, tail);
    assert(up.drop_last() =~= segs.drop_last());
    assert(up.last() == tail);
    lemma_union_insert_right(table_map(segs.drop_last()), segs.last().view_map(), k, v);
}

/// When the newest segment says nothing about a key, the older ones decide.
pub proof fn lemma_table_lookup_drop_last(segs: Seq<SSTableSegment>, k: Seq<u8>)
    requires
        segs.len() >= 1,
        !segs.last().view_map().contains_key(k),
    ensures
        table_lookup(segs, k) == table_lookup(segs.drop_last(), k),
        table_map(segs).contains_key(k) == table_map(segs.drop_last()).contains_key(k),
{
}

/// When the newest segment holds the key, it decides the reading view.
pub proof fn lemma_table_lookup_last(segs: Seq<SSTableSegment>, k: Seq<u8>)
    requires
        segs.len() >= 1,
        segs.last().view_map().contains_key(k),
    ensures
        table_map(segs).contains_key(k),
        table_map(segs)[k] == segs.last().view_map()[k],
{
}

/// Is a serial present among the files?
pub open spec fn has_file(fs: Seq<(u64, Seq<u8>)>, serial: u64) -> bool {
    exists|j: int| 0 <= j < fs.len() && (#[trigger] fs[j]).0 == serial
}

pub proof fn lemma_has_file_push(fs: Seq<(u64, Seq<u8>)>, x: (u64, Seq<u8>), s: u64)
    ensures
        has_file(fs.push(x), s) == (has_file(fs, s) || x.0 == s),
{
    if has_file(fs, s) {
        let j = choose|j: int| 0 <= j < fs.len() && (#[trigger] fs[j]).0 == s;
        assert(fs.push(x)[j].0 == s);
    }
    if x.0 == s {
        assert(fs.push(x)[fs.len() as int].0 == s);
    }
    if has_file(fs.push(x), s) {
        let j = choose|j: int| 0 <= j < fs.push(x).len() && (#[trigger] fs.push(x)[j]).0 == s;
        if j < fs.len() {
            assert(fs[j].0 == s);
        }
    }
}

/// The sealed segments whose serial is not yet on disk, oldest first, with
/// their encoded images: what one persistence pass appends.
pub open spec fn seals_to_write(segs: Seq<SSTableSegment>, fs: Seq<(u64, Seq<u8>)>) -> Seq<
    (u64, Seq<u8>),
>
    decreases segs.len(),
{
    if segs.len() == 0 {
        Seq::empty()
    } else {
        let rest = seals_to_write(segs.drop_last(), fs);
        if has_file(fs, segs.last().spec_serial()) {
            rest
        } else {
            rest.push((segs.last().spec_serial(), encode_entries(segs.last().view_entries())))
        }
    }
}

/// Idempotent persistence: when every sealed serial is already on disk, a
/// persistence pass appends nothing and touches no existing file; in
/// particular, sealing the same serial twice never duplicates or corrupts a
/// file.
pub proof fn lemma_seal_idempotent(segs: Seq<SSTableSegment>, fs: Seq<(u64, Seq<u8>)>)
    requires
        forall|i: int| 0 <= i < segs.len() ==> has_file(fs, (#[trigger] segs[i]).spec_serial()),
    ensures
        seals_to_write(segs, fs) == Seq::<(u64, Seq<u8>)>::empty(),
    decreases segs.len(),
{
    if segs.len() > 0 {
        assert forall|i: int| 0 <= i < segs.drop_last().len() implies has_file(
            fs,
            (#[trigger] segs.drop_last()[i]).spec_serial(),
        ) by {
            assert(segs.drop_last()[i] == segs[i]);
        }
        lemma_seal_idempotent(segs.drop_last(), fs);
    }
}



/// Every file name parses as `<serial>.sst`.
pub open spec fn input_names_ok(files: Seq<NamedFile>) -> bool {
    forall|i: int| 0 <= i < files.len() ==> parse_sst_name((#[trigger] files[i]).name@) is Some
}

/// No two files name the same serial.
pub open spec fn input_serials_distinct(files: Seq<NamedFile>) -> bool {
    forall|i: int, j: int|
        #![trigger files[i].name@, files[j].name@]
        0 <= i < j < files.len() ==> parse_sst_name(files[i].name@) != parse_sst_name(
            files[j].name@,
        )
}

/// The (serial, bytes) pairs the named files carry.
pub open spec fn parsed_views(files: Seq<NamedFile>) -> Seq<(u64, Seq<u8>)> {
    files.map_values(|f: NamedFile| (parse_sst_name(f.name@)->0, f.bytes@))
}

/// Files sorted strictly by serial.
pub open spec fn files_sorted(fs: Seq<(u64, Seq<u8>)>) -> bool {
    forall|a: int, b: int| #![trigger fs[a].0, fs[b].0] 0 <= a < b < fs.len() ==> fs[a].0 < fs[b].0
}

/// `fs` is the input files arranged by ascending serial.
pub open spec fn is_sorted_arrangement(fs: Seq<(u64, Seq<u8>)>, files: Seq<NamedFile>) -> bool {
    files_sorted(fs) && fs.to_multiset() == parsed_views(files).to_multiset()
}

/// Distinct serials admit exactly one sorted arrangement: the witness in a
/// recovery error is the same arrangement a successful recovery would yield.
pub proof fn lemma_sorted_arrangement_unique(a: Seq<(u64, Seq<u8>)>, b: Seq<(u64, Seq<u8>)>)
    requires
        files_sorted(a),
        files_sorted(b),
        a.to_multiset() == b.to_multiset(),
    ensures
        a == b,
    decreases a.len(),
{
    broadcast use vstd::seq_lib::group_to_multiset_ensures;

    if a.len() == 0 {
        assert(a.to_multiset().len() == 0);
        assert(b.len() == 0);
        assert(a =~= b);
    } else {
        assert(a.len() == a.to_multiset().len());
        assert(b.len() == b.to_multiset().len());
        assert(a.len() == b.len());
        let x = a.last();
        assert(a.to_multiset().count(x) > 0) by {
            assert(a.contains(x));
        }
        assert(b.contains(x));
        let j = choose|j: int| 0 <= j < b.len() && b[j] == x;
        assert(j == b.len() - 1) by {
            if j < b.len() - 1 {
                let y = b.last();
                assert(b[j].0 < y.0);
                assert(b.to_multiset().count(y) > 0) by {
                    assert(b.contains(y));
                }
                assert(a.contains(y));
                let i = choose|i: int| 0 <= i < a.len() && a[i] == y;
                assert(a[i].0 <= a.last().0) by {
                    if i < a.len() - 1 {
                        assert(a[i].0 < a.last().0);
                    }
                }
            }
        }
        assert(b.last() == x);
        assert(a.drop_last().to_multiset() =~= b.drop_last().to_multiset()) by {
            assert(a.drop_last().push(x) =~= a);
            assert(b.drop_last().push(x) =~= b);
            assert(a.drop_last().push(x).to_multiset() =~= a.drop_last().to_multiset().insert(x));
            assert(b.drop_last().push(x).to_multiset() =~= b.drop_last().to_multiset().insert(x));
            assert(a.drop_last().to_multiset() =~= a.drop_last().to_multiset().insert(x).remove(x));
            assert(b.drop_last().to_multiset() =~= b.drop_last().to_multiset().insert(x).remove(x));
        }
        assert(files_sorted(a.drop_last())) by {
            assert forall|p: int, q: int|
                #![trigger a.drop_last()[p].0, a.drop_last()[q].0]
                0 <= p < q < a.drop_last().len() implies a.drop_last()[p].0 < a.drop_last()[q].0 by {
                assert(a.drop_last()[p] == a[p] && a.drop_last()[q] == a[q]);
            }
        }
        assert(files_sorted(b.drop_last())) by {
            assert forall|p: int, q: int|
                #![trigger b.drop_last()[p].0, b.drop_last()[q].0]
                0 <= p < q < b.drop_last().len() implies b.drop_last()[p].0 < b.drop_last()[q].0 by {
                assert(b.drop_last()[p] == b[p] && b.drop_last()[q] == b[q]);
            }
        }
        lemma_sorted_arrangement_unique(a.drop_last(), b.drop_last());
        assert(a =~= b) by {
            assert forall|i: int| 0 <= i < a.len() implies a[i] == b[i] by {
                if i < a.len() - 1 {
                    assert(a.drop_last()[i] == a[i]);
                    assert(b.drop_last()[i] == b[i]);
                }
            }
        }
    }
}

/// The chained decode over files sorted by serial: each image parses, the
/// running serial stays within 64 bits, and each file's terminal serial (the
/// previous one plus its record count) equals the serial its name carries.
pub open spec fn chain_ok(fs: Seq<(u64, Seq<u8>)>, prev: u64) -> bool
    decreases fs.len(),
{
    if fs.len() == 0 {
        true
    } else {
        let f0 = fs.first();
        &&& parse_records(f0.1) is Some
        &&& prev + parse_records(f0.1)->0.len() <= u64::MAX
        &&& prev + parse_records(f0.1)->0.len() == f0.0
        &&& chain_ok(fs.drop_first(), f0.0)
    }
}

/// Inserting anywhere adds one occurrence to the multiset.
pub proof fn lemma_to_multiset_insert_at(fs: Seq<(u64, Seq<u8>)>, i: int, x: (u64, Seq<u8>))
    requires
        0 <= i <= fs.len(),
    ensures
        fs.insert(i, x).to_multiset() == fs.to_multiset().insert(x),
{
    broadcast use vstd::seq_lib::group_to_multiset_ensures;

    let ins = fs.insert(i, x);
    assert(ins.remove(i) =~= fs);
    assert(ins[i] == x);
    assert(ins.remove(i).to_multiset() =~= ins.to_multiset().remove(x));
    assert(ins.to_multiset().contains(x)) by {
        assert(ins.contains(x));
    }
    assert(ins.to_multiset() =~= fs.to_multiset().insert(x));
}

/// Key and value bytes across every entry of every segment.
pub open spec fn total_canonical(segs: Seq<SSTableSegment>) -> int
    decreases segs.len(),
{
    if segs.len() == 0 {
        0
    } else {
        total_canonical(segs.drop_last()) + canonical_size(segs.last().view_entries())
    }
}

/// Entry count across every segment.
pub open spec fn total_entries(segs: Seq<SSTableSegment>) -> int
    decreases segs.len(),
{
    if segs.len() == 0 {
        0
    } else {
        total_entries(segs.drop_last()) + segs.last().view_entries().len()
    }
}

pub proof fn lemma_totals_take_step(segs: Seq<SSTableSegment>, i: int)
    requires
        0 <= i < segs.len(),
    ensures
        total_canonical(segs.take(i + 1)) == total_canonical(segs.take(i)) + canonical_size(
            segs[i].view_entries(),
        ),
        total_entries(segs.take(i + 1)) == total_entries(segs.take(i)) + segs[i].view_entries().len(),
{
    assert(segs.take(i + 1).drop_last() =~= segs.take(i));
    assert(segs.take(i + 1).last() == segs[i]);
}

pub proof fn lemma_totals_take_le(segs: Seq<SSTableSegment>, i: int, j: int)
    requires
        0 <= i <= j <= segs.len(),
        forall|x: int| 0 <= x < segs.len() ==> (#[trigger] segs[x]).wf(),
    ensures
        total_canonical(segs.take(i)) <= total_canonical(segs.take(j)),
        total_entries(segs.take(i)) <= total_entries(segs.take(j)),
    decreases j - i,
{
    if i < j {
        lemma_totals_take_le(segs, i, j - 1);
        lemma_totals_take_step(segs, j - 1);
        lemma_canonical_nonneg(segs[j - 1].view_entries());
    }
}


/// What a successful recovery yields: the given files arranged by serial,
/// each decoded in the chain, under a fresh empty open segment.
pub open spec fn recovered_from(t: SSTable, files: Seq<NamedFile>, limit: usize) -> bool {
    &&& t.wf()
    &&& t.limit_spec() == limit
    &&& input_names_ok(files)
    &&& input_serials_distinct(files)
    &&& is_sorted_arrangement(t.files_view(), files)
    &&& t.files_view().len() == files.len()
    &&& chain_ok(t.files_view(), 0)
    &&& t.seg_seq().len() == files.len() + 1
    &&& forall|i: int|
        0 <= i < files.len() ==> {
            &&& (#[trigger] t.seg_seq()[i]).spec_serial() == t.files_view()[i].0
            &&& parse_records(t.files_view()[i].1) is Some
            &&& t.seg_seq()[i].view_map() == map_of(parse_records(t.files_view()[i].1)->0)
            &&& t.seg_seq()[i].spec_size() == replay_size(parse_records(t.files_view()[i].1)->0)
        }
    &&& t.seg_seq().last().view_map() == Map::<Seq<u8>, Option<Seq<u8>>>::empty()
    &&& t.seg_seq().last().view_entries() == Seq::<(Seq<u8>, Option<Seq<u8>>)>::empty()
    &&& t.seg_seq().last().spec_size() == 0
    &&& t.seg_seq().last().spec_serial() == (if files.len() == 0 {
        0u64
    } else {
        t.files_view().last().0
    })
}

/// No key stands in two segments, and keys only grow from one segment to
/// the next.
pub open spec fn segments_key_ordered(segs: Seq<SSTableSegment>) -> bool {
    forall|a: int, b: int, k1: Seq<u8>, k2: Seq<u8>|
        #![trigger segs[a].view_map().contains_key(k1), segs[b].view_map().contains_key(k2)]
        0 <= a < b < segs.len() && segs[a].view_map().contains_key(k1)
            && segs[b].view_map().contains_key(k2) ==> lex_lt(k1, k2)
}

/// Every segment's accounted size is exactly the canonical sum of its
/// entries' key and value bytes.
pub open spec fn segments_size_canonical(segs: Seq<SSTableSegment>) -> bool {
    forall|j: int|
        0 <= j < segs.len() ==> (#[trigger] segs[j]).spec_size() == canonical_size(
            segs[j].view_entries(),
        )
}

/// Every sealed chunk was closed by the size rule: its own last entry pushed
/// its size past the bound.
pub open spec fn chunks_closed_by_bound(segs: Seq<SSTableSegment>, limit: usize) -> bool {
    forall|j: int|
        0 <= j < segs.len() - 1 ==> ((#[trigger] segs[j]).view_entries().len() > 0
            && segs[j].spec_size() + segs[j].view_entries().last().0.len() + val_len(
            segs[j].view_entries().last().1,
        ) > limit)
}

pub proof fn lemma_totals_update_last(segs: Seq<SSTableSegment>, t: SSTableSegment)
    requires
        segs.len() >= 1,
    ensures
        total_canonical(segs.update(segs.len() - 1, t)) == total_canonical(segs) - canonical_size(
            segs.last().view_entries(),
        ) + canonical_size(t.view_entries()),
        total_entries(segs.update(segs.len() - 1, t)) == total_entries(segs)
            - segs.last().view_entries().len() + t.view_entries().len(),
{
    let up = segs.update(segs.len() - 1, t);
    assert(up.drop_last() =~= segs.drop_last());
    assert(up.last() == t);
}

pub proof fn lemma_totals_push(segs: Seq<SSTableSegment>, t: SSTableSegment)
    ensures
        total_canonical(segs.push(t)) == total_canonical(segs) + canonical_size(t.view_entries()),
        total_entries(segs.push(t)) == total_entries(segs) + t.view_entries().len(),
{
    assert(segs.push(t).drop_last() =~= segs);
    assert(segs.push(t).last() == t);
}

/// Everything one live write does to a table: the reading view gains the
/// entry; the sealed segments stay exactly as they were; the open segment
/// takes the write, its serial advancing by one; and it is sealed (with
/// every missing sealed segment persisted) precisely when its size has
/// outgrown the limit, a fresh empty open segment taking its place.
pub open spec fn insert_post(pre: SSTable, post: SSTable, k: Seq<u8>, v: Seq<u8>) -> bool {
    let n = pre.seg_seq().len() as int;
    let tail = pre.seg_seq().last();
    let grown = tail.size_after_write(k, Some(v));
    let rotated = grown > pre.limit_spec();
    &&& post.wf()
    &&& post.view_map() == pre.view_map().insert(k, Some(v))
    &&& post.limit_spec() == pre.limit_spec()
    &&& post.seg_seq().take(n - 1) == pre.seg_seq().take(n - 1)
    &&& post.seg_seq().last().spec_serial() == tail.spec_serial() + 1
    &&& total_canonical(post.seg_seq()) <= total_canonical(pre.seg_seq()) + k.len() + v.len()
    &&& total_entries(post.seg_seq()) <= total_entries(pre.seg_seq()) + 1
    &&& (post.seg_seq().len() == n + 1) == rotated
    &&& if rotated {
        &&& post.seg_seq()[n - 1].view_map() == tail.view_map().insert(k, Some(v))
        &&& post.seg_seq()[n - 1].spec_size() == grown
        &&& post.seg_seq()[n - 1].spec_serial() == tail.spec_serial() + 1
        &&& post.seg_seq().last().view_entries() == Seq::<(Seq<u8>, Option<Seq<u8>>)>::empty()
        &&& post.seg_seq().last().spec_size() == 0
        &&& post.files_view() == pre.files_view() + seals_to_write(
            post.seg_seq().take(post.seg_seq().len() - 1),
            pre.files_view(),
        )
    } else {
        &&& post.seg_seq().len() == n
        &&& post.seg_seq().last().view_map() == tail.view_map().insert(k, Some(v))
        &&& post.seg_seq().last().spec_size() == grown
        &&& post.files_view() == pre.files_view()
    }
}

/// Everything a tombstone does to a table: the reading view masks the key;
/// the sealed segments and the files stay as they were; the open segment
/// records the tombstone with one more serial.  A tombstone never triggers
/// rotation: only an insert checks the size bound.
pub open spec fn delete_post(pre: SSTable, post: SSTable, k: Seq<u8>) -> bool {
    let n = pre.seg_seq().len() as int;
    let tail = pre.seg_seq().last();
    &&& post.wf()
    &&& post.view_map() == pre.view_map().insert(k, None)
    &&& post.limit_spec() == pre.limit_spec()
    &&& post.files_view() == pre.files_view()
    &&& post.seg_seq().len() == n
    &&& post.seg_seq().take(n - 1) == pre.seg_seq().take(n - 1)
    &&& post.seg_seq().last().view_map() == tail.view_map().insert(k, None)
    &&& post.seg_seq().last().spec_size() == tail.size_after_delete(k)
    &&& post.seg_seq().last().spec_serial() == tail.spec_serial() + 1
    &&& total_canonical(post.seg_seq()) <= total_canonical(pre.seg_seq()) + k.len()
    &&& total_entries(post.seg_seq()) <= total_entries(pre.seg_seq()) + 1
}

/// A sorted key/value table organized as an ordered sequence of bounded-size
/// segments: exactly one open mutable segment at the tail, all earlier ones
/// sealed and persisted.
pub struct SSTable {
    segments: Vec<SSTableSegment>,
    files: Vec<DiskFile>,
    segment_size_limit: usize,
}

impl SSTable {
    /// The segments, oldest first; the last is the open one.
    pub closed spec fn seg_seq(self) -> Seq<SSTableSegment> {
        self.segments@
    }

    /// The data directory model: (serial, bytes) per persisted file.
    pub closed spec fn files_view(self) -> Seq<(u64, Seq<u8>)> {
        self.files@.map_values(|f: DiskFile| (f.serial, f.bytes@))
    }

    /// The configured bound that triggers rotation.
    pub closed spec fn limit_spec(self) -> usize {
        self.segment_size_limit
    }

    /// The reading view.
    pub open spec fn view_map(self) -> Map<Seq<u8>, Option<Seq<u8>>> {
        table_map(self.seg_seq())
    }

    /// The largest serial on disk, or -1 with no files.
    pub open spec fn fmax(self) -> int {
        if self.files_view().len() == 0 {
            -1
        } else {
            self.files_view().last().0 as int
        }
    }

    /// Exactly one open segment; serials strictly increasing across sealed
    /// segments and never past the open one; files sorted by serial; every
    /// sealed segment is on disk or newer than everything on disk.
    pub open spec fn wf(self) -> bool {
        let segs = self.seg_seq();
        let fs = self.files_view();
        &&& segs.len() >= 1
        &&& forall|i: int| 0 <= i < segs.len() ==> (#[trigger] segs[i]).wf()
        &&& forall|i: int, j: int|
            #![trigger segs[i].spec_serial(), segs[j].spec_serial()]
            0 <= i < j < segs.len() - 1 ==> segs[i].spec_serial() < segs[j].spec_serial()
        &&& forall|i: int|
            0 <= i < segs.len() - 1 ==> (#[trigger] segs[i]).spec_serial() <= segs.last().spec_serial()
        &&& forall|i: int, j: int|
            #![trigger fs[i].0, fs[j].0]
            0 <= i < j < fs.len() ==> fs[i].0 < fs[j].0
        &&& forall|i: int|
            0 <= i < segs.len() - 1 ==> has_file(fs, (#[trigger] segs[i]).spec_serial()) || (
            #[trigger] segs[i]).spec_serial() > self.fmax()
        &&& self.fmax() <= segs.last().spec_serial()
    }


    /// Parses and arranges the directory entries by ascending serial: a
    /// malformed name is invalid input; two names carrying one serial are
    /// invalid data, since no serial chain can satisfy both.
    #[verifier::loop_isolation(false)]
    #[verifier::rlimit(100)]
    fn sort_input(files: &Vec<NamedFile>) -> (r: Result<Vec<DiskFile>, StorageError>)
        ensures
            match r {
                Ok(sorted) => {
                    &&& input_names_ok(files@)
                    &&& input_serials_distinct(files@)
                    &&& is_sorted_arrangement(
                        sorted@.map_values(|f: DiskFile| (f.serial, f.bytes@)),
                        files@,
                    )
                },
                Err(StorageError::InvalidInput) => !input_names_ok(files@),
                Err(StorageError::InvalidData) => input_names_ok(files@)
                    && !input_serials_distinct(files@),
            },
    {
        broadcast use vstd::seq_lib::group_to_multiset_ensures;

        let n = files.len();
        // Every file name must be well-formed before any file is processed.
        let mut vi: usize = 0;
        while vi < n
            invariant
                0 <= vi <= n,
                n == files@.len(),
                forall|i: int|
                    0 <= i < vi ==> parse_sst_name((#[trigger] files@[i]).name@) is Some,
            decreases n - vi,
        {
            let nf = &files[vi];
            if parse_file_name(&nf.name).is_none() {
                return Err(StorageError::InvalidInput);
            }
            vi = vi + 1;
        }
        let mut sorted: Vec<DiskFile> = Vec::new();
        proof {
            assert(sorted@.map_values(|f: DiskFile| (f.serial, f.bytes@)) =~= Seq::<(
                u64,
                Seq<u8>,
            )>::empty());
            assert(parsed_views(files@.take(0)) =~= Seq::<(u64, Seq<u8>)>::empty());
            assert(Seq::<(u64, Seq<u8>)>::empty().to_multiset() =~= parsed_views(
                files@.take(0),
            ).to_multiset());
        }
        let mut fi: usize = 0;
        while fi < n
            invariant
                0 <= fi <= n,
                n == files@.len(),
                forall|i: int|
                    0 <= i < fi ==> parse_sst_name((#[trigger] files@[i]).name@) is Some,
                files_sorted(sorted@.map_values(|f: DiskFile| (f.serial, f.bytes@))),
                sorted@.map_values(|f: DiskFile| (f.serial, f.bytes@)).to_multiset()
                    == parsed_views(files@.take(fi as int)).to_multiset(),
            decreases n - fi,
        {
            let ghost sv = sorted@.map_values(|f: DiskFile| (f.serial, f.bytes@));
            let nf = &files[fi];
            let parsed = parse_file_name(&nf.name);
            let s = match parsed {
                Some(s) => s,
                None => {
                    // Every name was validated above; this arm cannot run.
                    proof {
                        assert(parse_sst_name(files@[fi as int].name@) is Some);
                        assert(false);
                    }
                    return Err(StorageError::InvalidInput);
                },
            };
            // Find the sorted position; a matching serial is a duplicate name.
            let slen = sorted.len();
            let mut p: usize = 0;
            while p < slen
                invariant
                    0 <= p <= slen,
                    slen == sorted@.len(),
                    sv == sorted@.map_values(|f: DiskFile| (f.serial, f.bytes@)),
                    forall|j: int| 0 <= j < p ==> (#[trigger] sv[j]).0 < s,
                decreases slen - p,
            {
                let f = &sorted[p];
                proof {
                    assert(sv[p as int] == (f.serial, f.bytes@));
                }
                if f.serial == s {
                    proof {
                        let pair = sv[p as int];
                        assert(sv.contains(pair));
                        assert(sv.to_multiset().count(pair) > 0);
                        assert(parsed_views(files@.take(fi as int)).contains(pair));
                        let x = choose|x: int|
                            0 <= x < fi && parsed_views(files@.take(fi as int))[x] == pair;
                        assert(parsed_views(files@.take(fi as int))[x] == (parse_sst_name(
                            files@[x].name@,
                        )->0, files@[x].bytes@));
                        assert(parse_sst_name(files@[x].name@) == Some(s));
                        assert(parse_sst_name(files@[fi as int].name@) == Some(s));
                        assert(!input_serials_distinct(files@));
                    }
                    return Err(StorageError::InvalidData);
                }
                if f.serial > s {
                    break ;
                }
                p = p + 1;
            }
            let bytes = clone_bytes(&nf.bytes);
            sorted.insert(p, DiskFile { serial: s, bytes });
            proof {
                let x: (u64, Seq<u8>) = (s, files@[fi as int].bytes@);
                let sv2 = sorted@.map_values(|f: DiskFile| (f.serial, f.bytes@));
                assert(sv2 =~= sv.insert(p as int, x));
                lemma_to_multiset_insert_at(sv, p as int, x);
                assert(parsed_views(files@.take(fi as int + 1)) =~= parsed_views(
                    files@.take(fi as int),
                ).push(x));
                assert(parsed_views(files@.take(fi as int)).push(x).to_multiset()
                    =~= parsed_views(files@.take(fi as int)).to_multiset().insert(x));
                assert forall|a: int, b: int|
                    #![trigger sv2[a].0, sv2[b].0]
                    0 <= a < b < sv2.len() implies sv2[a].0 < sv2[b].0 by {
                    if b < p {
                        assert(sv2[a] == sv[a] && sv2[b] == sv[b]);
                    } else if b == p {
                        assert(sv2[a] == sv[a]);
                    } else if a < p {
                        assert(sv2[b] == sv[b - 1]);
                    } else if a == p {
                        assert(sv2[b] == sv[b - 1]);
                        if p < slen {
                            assert(sv[p as int].0 > s);
                            if b - 1 > p {
                                assert(sv[p as int].0 < sv[b - 1].0);
                            }
                        }
                    } else {
                        assert(sv2[a] == sv[a - 1] && sv2[b] == sv[b - 1]);
                    }
                }
            }
            fi = fi + 1;
        }
        proof {
            assert(files@.take(n as int) =~= files@);
            let sv = sorted@.map_values(|f: DiskFile| (f.serial, f.bytes@));
            let pv = parsed_views(files@);
            assert(sv.no_duplicates()) by {
                assert forall|a: int, b: int|
                    0 <= a < sv.len() && 0 <= b < sv.len() && a != b implies sv[a] != sv[b] by {
                    if a < b {
                        assert(sv[a].0 < sv[b].0);
                    } else {
                        assert(sv[b].0 < sv[a].0);
                    }
                }
            }
            sv.lemma_multiset_has_no_duplicates();
            pv.lemma_multiset_has_no_duplicates_conv();
            assert forall|i: int, j: int|
                #![trigger files@[i].name@, files@[j].name@]
                0 <= i < j < files@.len() implies parse_sst_name(files@[i].name@)
                != parse_sst_name(files@[j].name@) by {
                if parse_sst_name(files@[i].name@) == parse_sst_name(files@[j].name@) {
                    let pi = pv[i];
                    let pj = pv[j];
                    assert(pi.0 == pj.0);
                    if pi == pj {
                        assert(!pv.no_duplicates());
                    } else {
                        assert(pv.contains(pi) && pv.contains(pj));
                        assert(sv.to_multiset().count(pi) > 0 && sv.to_multiset().count(pj) > 0);
                        assert(sv.contains(pi) && sv.contains(pj));
                        let a = choose|a: int| 0 <= a < sv.len() && sv[a] == pi;
                        let b = choose|b: int| 0 <= b < sv.len() && sv[b] == pj;
                        if a < b {
                            assert(sv[a].0 < sv[b].0);
                        } else if b < a {
                            assert(sv[b].0 < sv[a].0);
                        }
                    }
                }
            }
        }
        Ok(sorted)
    }

    /// Decodes the sorted files in order, chaining serials from zero.
    #[verifier::loop_isolation(false)]
    #[verifier::rlimit(100)]
    fn load_chain(sorted: &Vec<DiskFile>) -> (r: Result<Vec<SSTableSegment>, StorageError>)
        ensures
            ({
                let fsv = sorted@.map_values(|f: DiskFile| (f.serial, f.bytes@));
                match r {
                    Ok(segments) => {
                        &&& chain_ok(fsv, 0)
                        &&& segments@.len() == fsv.len()
                        &&& forall|j: int|
                            0 <= j < fsv.len() ==> {
                                &&& (#[trigger] segments@[j]).wf()
                                &&& segments@[j].spec_serial() == fsv[j].0
                                &&& parse_records(fsv[j].1) is Some
                                &&& segments@[j].view_map() == map_of(parse_records(fsv[j].1)->0)
                                &&& segments@[j].spec_size() == replay_size(
                                    parse_records(fsv[j].1)->0,
                                )
                            }
                    },
                    Err(e) => e == StorageError::InvalidData && !chain_ok(fsv, 0),
                }
            }),
    {
        let ghost fsv = sorted@.map_values(|f: DiskFile| (f.serial, f.bytes@));
        let k = sorted.len();
        let mut segments: Vec<SSTableSegment> = Vec::new();
        let mut prev: u64 = 0;
        proof {
            assert(fsv.skip(0) =~= fsv);
        }
        let mut ki: usize = 0;
        while ki < k
            invariant
                0 <= ki <= k,
                k == fsv.len(),
                fsv == sorted@.map_values(|f: DiskFile| (f.serial, f.bytes@)),
                segments@.len() == ki,
                prev == (if ki == 0 {
                    0u64
                } else {
                    fsv[ki - 1].0
                }),
                chain_ok(fsv, 0) == chain_ok(fsv.skip(ki as int), prev),
                forall|j: int|
                    0 <= j < ki ==> {
                        &&& (#[trigger] segments@[j]).wf()
                        &&& segments@[j].spec_serial() == fsv[j].0
                        &&& parse_records(fsv[j].1) is Some
                        &&& segments@[j].view_map() == map_of(parse_records(fsv[j].1)->0)
                        &&& segments@[j].spec_size() == replay_size(parse_records(fsv[j].1)->0)
                    },
            decreases k - ki,
        {
            let ghost rest = fsv.skip(ki as int);
            proof {
                assert(rest.first() == fsv[ki as int]);
                assert(rest.drop_first() =~= fsv.skip(ki as int + 1));
            }
            let f = &sorted[ki];
            proof {
                assert(fsv[ki as int] == (f.serial, f.bytes@));
            }
            let seg = match decode_segment(&f.bytes, prev) {
                Ok(seg) => seg,
                Err(_) => {
                    proof {
                        assert(!chain_ok(rest, prev));
                    }
                    return Err(StorageError::InvalidData);
                },
            };
            if seg.serial() != f.serial {
                proof {
                    assert(!chain_ok(rest, prev));
                }
                return Err(StorageError::InvalidData);
            }
            prev = f.serial;
            segments.push(seg);
            ki = ki + 1;
        }
        proof {
            assert(fsv.skip(k as int) =~= Seq::<(u64, Seq<u8>)>::empty());
            assert(chain_ok(fsv, 0));
        }
        Ok(segments)
    }

    /// Recovers a table from the data directory: every file must be named
    /// `<serial>.sst` (else invalid input); sorted ascending, each image is
    /// decoded with the running serial, which must match the file name, so a
    /// duplicated serial is invalid data like any other broken chain.  A
    /// fresh open segment seeded from the last serial (or zero) goes on top.
    #[verifier::loop_isolation(false)]
    #[verifier::rlimit(100)]
    pub fn try_new(files: Vec<NamedFile>, segment_size_limit: usize) -> (r: Result<
        SSTable,
        StorageError,
    >)
        ensures
            match r {
                Ok(t) => recovered_from(t, files@, segment_size_limit),
                Err(StorageError::InvalidInput) => !input_names_ok(files@),
                Err(StorageError::InvalidData) => {
                    &&& input_names_ok(files@)
                    &&& (!input_serials_distinct(files@) || exists|fs: Seq<(u64, Seq<u8>)>|
                        #[trigger] is_sorted_arrangement(fs, files@) && !chain_ok(fs, 0))
                },
            },
    {
        let sorted = match Self::sort_input(&files) {
            Ok(sorted) => sorted,
            Err(e) => {
                return Err(e);
            },
        };
        let ghost fsv = sorted@.map_values(|f: DiskFile| (f.serial, f.bytes@));
        let segments = match Self::load_chain(&sorted) {
            Ok(segments) => segments,
            Err(e) => {
                proof {
                    assert(is_sorted_arrangement(fsv, files@) && !chain_ok(fsv, 0));
                }
                return Err(e);
            },
        };
        let mut segments = segments;
        let k = sorted.len();
        proof {
            broadcast use vstd::seq_lib::group_to_multiset_ensures;

            assert(fsv.len() == fsv.to_multiset().len());
            assert(parsed_views(files@).len() == parsed_views(files@).to_multiset().len());
            assert(fsv.len() == files@.len());
        }
        let prev = if sorted.len() == 0 {
            0
        } else {
            let i = sorted.len() - 1;
            let f = &sorted[i];
            proof {
                assert(fsv[i as int] == (f.serial, f.bytes@));
            }
            f.serial
        };
        let tail = SSTableSegment::new(prev);
        segments.push(tail);
        let t = SSTable { segments, files: sorted, segment_size_limit };
        proof {
            let segs = t.seg_seq();
            let fs = t.files_view();
            assert(fs == fsv);
            assert forall|i: int| 0 <= i < segs.len() implies (#[trigger] segs[i]).wf() by {
                if i == segs.len() - 1 {
                    assert(segs[i] == tail);
                }
            }
            assert forall|i: int|
                0 <= i < segs.len() - 1 implies (#[trigger] segs[i]).spec_serial()
                <= segs.last().spec_serial() by {
                assert(segs[i].spec_serial() == fsv[i].0);
                if i < segs.len() - 2 {
                    assert(fsv[i].0 < fsv[k - 1].0);
                }
            }
            assert forall|i: int|
                0 <= i < segs.len() - 1 implies has_file(fs, (#[trigger] segs[i]).spec_serial())
                || (#[trigger] segs[i]).spec_serial() > t.fmax() by {
                assert(fs[i].0 == segs[i].spec_serial());
                assert(has_file(fs, segs[i].spec_serial()));
            }
            if fs.len() > 0 {
                assert(t.fmax() == fsv[k - 1].0);
            }
            assert(t.wf());
            assert(recovered_from(t, files@, segment_size_limit));
        }
        Ok(t)
    }

    /// The serial of the most recent mutation.
    pub fn latest_serial(&self) -> (n: u64)
        requires
            self.wf(),
        ensures
            n == self.seg_seq().last().spec_serial(),
    {
        let i = self.segments.len() - 1;
        let seg = &self.segments[i];
        seg.serial()
    }

    /// How many segments exist, the open one included.
    pub fn segment_count(&self) -> (n: usize)
        ensures
            n == self.seg_seq().len(),
    {
        self.segments.len()
    }

    /// The segment at position `i`, oldest first.
    pub fn segment_at(&self, i: usize) -> (r: &SSTableSegment)
        requires
            i < self.seg_seq().len(),
        ensures
            *r == self.seg_seq()[i as int],
    {
        &self.segments[i]
    }

    /// How many files the data directory model holds.
    pub fn file_count(&self) -> (n: usize)
        ensures
            n == self.files_view().len(),
    {
        self.files.len()
    }

    /// The persisted file at position `i`, in serial order.
    pub fn file_at(&self, i: usize) -> (f: &DiskFile)
        requires
            i < self.files_view().len(),
        ensures
            (f.serial, f.bytes@) == self.files_view()[i as int],
    {
        let f = &self.files[i];
        proof {
            assert(self.files_view()[i as int] == (f.serial, f.bytes@));
        }
        f
    }

    /// The configured segment size bound.
    pub fn size_limit(&self) -> (n: usize)
        ensures
            n == self.limit_spec(),
    {
        self.segment_size_limit
    }

    fn has_file_exec(&self, serial: u64) -> (r: bool)
        ensures
            r == has_file(self.files_view(), serial),
    {
        let ghost fs = self.files_view();
        let n = self.files.len();
        let mut i: usize = 0;
        while i < n
            invariant
                0 <= i <= n,
                n == fs.len(),
                fs == self.files_view(),
                forall|j: int| 0 <= j < i ==> (#[trigger] fs[j]).0 != serial,
            decreases n - i,
        {
            let f = &self.files[i];
            proof {
                assert(fs[i as int] == (f.serial, f.bytes@));
            }
            if f.serial == serial {
                return true;
            }
            i = i + 1;
        }
        false
    }

    /// Scans segments newest to oldest; the first entry found wins, so a
    /// tombstone in a newer segment masks a live value in an older one.
    #[verifier::loop_isolation(false)]
    pub fn get(&self, key: &str) -> (r: Option<Vec<u8>>)
        requires
            self.wf(),
        ensures
            r.deep_view() == table_lookup(self.seg_seq(), key.spec_bytes()),
    {
        let kb = key.as_bytes();
        let ghost segs = self.seg_seq();
        let ghost kv = key.spec_bytes();
        proof {
            assert(segs.take(segs.len() as int) =~= segs);
        }
        let mut i = self.segments.len();
        while i > 0
            invariant
                0 <= i <= segs.len(),
                table_lookup(segs, kv) == table_lookup(segs.take(i as int), kv),
                table_map(segs).contains_key(kv) == table_map(segs.take(i as int)).contains_key(
                    kv,
                ),
            decreases i,
        {
            let seg = &self.segments[i - 1];
            let found = seg.get(kb);
            proof {
                assert(segs.take(i as int).last() == segs[i - 1]);
            }
            match found {
                Some(v) => {
                    proof {
                        lemma_table_lookup_last(segs.take(i as int), kv);
                    }
                    return v;
                },
                None => {
                    proof {
                        lemma_table_lookup_drop_last(segs.take(i as int), kv);
                        assert(segs.take(i as int).drop_last() =~= segs.take(i as int - 1));
                    }
                    i = i - 1;
                },
            }
        }
        proof {
            assert(segs.take(0) =~= Seq::<SSTableSegment>::empty());
            assert(!table_map(Seq::<SSTableSegment>::empty()).contains_key(kv));
        }
        None
    }

    /// Persists every sealed segment that is not yet on disk, in serial
    /// order; a file already present is never written again.
    #[verifier::loop_isolation(false)]
    #[verifier::rlimit(50)]
    pub fn write(&mut self) -> (r: Result<(), StorageError>)
        requires
            old(self).wf(),
        ensures
            final(self).wf(),
            r is Ok,
            final(self).seg_seq() == old(self).seg_seq(),
            final(self).limit_spec() == old(self).limit_spec(),
            final(self).files_view() == old(self).files_view() + seals_to_write(
                old(self).seg_seq().take(old(self).seg_seq().len() - 1),
                old(self).files_view(),
            ),
            forall|i: int|
                0 <= i < final(self).seg_seq().len() - 1 ==> has_file(
                    final(self).files_view(),
                    (#[trigger] final(self).seg_seq()[i]).spec_serial(),
                ),
    {
        let ghost segs = old(self).seg_seq();
        let ghost old_fs = old(self).files_view();
        let n_seal = self.segments.len() - 1;
        proof {
            assert(segs.take(0) =~= Seq::<SSTableSegment>::empty());
            assert(seals_to_write(segs.take(0), old_fs) =~= Seq::<(u64, Seq<u8>)>::empty());
            assert(old_fs + seals_to_write(segs.take(0), old_fs) =~= old_fs);
        }
        let mut i: usize = 0;
        while i < n_seal
            invariant
                0 <= i <= n_seal,
                n_seal == segs.len() - 1,
                self.seg_seq() == segs,
                self.limit_spec() == old(self).limit_spec(),
                self.files_view() == old_fs + seals_to_write(segs.take(i as int), old_fs),
                forall|a: int, b: int|
                    #![trigger self.files_view()[a].0, self.files_view()[b].0]
                    0 <= a < b < self.files_view().len() ==> self.files_view()[a].0
                        < self.files_view()[b].0,
                forall|j: int|
                    0 <= j < i ==> has_file(
                        self.files_view(),
                        (#[trigger] segs[j]).spec_serial(),
                    ),
                forall|j: int|
                    i <= j < n_seal ==> has_file(
                        self.files_view(),
                        (#[trigger] segs[j]).spec_serial(),
                    ) == has_file(old_fs, segs[j].spec_serial()),
                forall|j: int|
                    i <= j < n_seal ==> (!has_file(old_fs, (#[trigger] segs[j]).spec_serial())
                        ==> (self.files_view().len() == 0 || segs[j].spec_serial()
                        > self.files_view().last().0)),
                self.files_view().len() > 0 ==> self.files_view().last().0
                    <= segs.last().spec_serial(),
            decreases n_seal - i,
        {
            let seg = &self.segments[i];
            let s = seg.serial();
            let ghost cur_fs = self.files_view();
            let present = self.has_file_exec(s);
            proof {
                assert(segs.take(i as int + 1).drop_last() =~= segs.take(i as int));
                assert(segs.take(i as int + 1).last() == segs[i as int]);
            }
            if !present {
                let bytes = encode_segment(seg);
                let ghost x: (u64, Seq<u8>) = (s, encode_entries(segs[i as int].view_entries()));
                self.files.push(DiskFile { serial: s, bytes });
                proof {
                    assert(self.files_view() =~= cur_fs.push(x));
                    assert(seals_to_write(segs.take(i as int + 1), old_fs) == seals_to_write(
                        segs.take(i as int),
                        old_fs,
                    ).push(x));
                    assert(old_fs + seals_to_write(segs.take(i as int), old_fs).push(x)
                        =~= (old_fs + seals_to_write(segs.take(i as int), old_fs)).push(x));
                    assert forall|q: u64| true implies has_file(cur_fs.push(x), q) == (has_file(
                        cur_fs,
                        q,
                    ) || x.0 == q) by {
                        lemma_has_file_push(cur_fs, x, q);
                    }
                    assert forall|a: int, b: int|
                        #![trigger self.files_view()[a].0, self.files_view()[b].0]
                        0 <= a < b < self.files_view().len() implies self.files_view()[a].0
                        < self.files_view()[b].0 by {
                        if b == self.files_view().len() - 1 {
                            assert(self.files_view()[b].0 == s);
                            assert(cur_fs[a].0 < s) by {
                                if a < cur_fs.len() - 1 {
                                    assert(cur_fs[a].0 < cur_fs.last().0);
                                }
                            }
                        }
                    }
                }
            } else {
                proof {
                    assert(has_file(old_fs, segs[i as int].spec_serial()));
                }
            }
            i = i + 1;
        }
        proof {
            assert(segs.take(n_seal as int) =~= segs.take(segs.len() - 1));
        }
        Ok(())
    }

    /// Seals the open segment: appends a fresh empty segment seeded from the
    /// sealed serial, then persists whatever is missing on disk.
    fn add_segment(&mut self) -> (r: Result<(), StorageError>)
        requires
            old(self).wf(),
            old(self).seg_seq().len() >= 2 ==> old(self).seg_seq().last().spec_serial()
                > old(self).seg_seq()[old(self).seg_seq().len() - 2].spec_serial(),
            old(self).fmax() < old(self).seg_seq().last().spec_serial(),
        ensures
            final(self).wf(),
            r is Ok,
            final(self).seg_seq().len() == old(self).seg_seq().len() + 1,
            final(self).seg_seq().take(old(self).seg_seq().len() as int) == old(self).seg_seq(),
            final(self).seg_seq().last().view_map() =~= Map::<Seq<u8>, Option<Seq<u8>>>::empty(),
            final(self).seg_seq().last().view_entries() == Seq::<(Seq<u8>, Option<Seq<u8>>)>::empty(),
            final(self).seg_seq().last().spec_size() == 0,
            final(self).seg_seq().last().spec_serial() == old(self).seg_seq().last().spec_serial(),
            final(self).view_map() == old(self).view_map(),
            final(self).limit_spec() == old(self).limit_spec(),
            final(self).files_view() == old(self).files_view() + seals_to_write(
                old(self).seg_seq(),
                old(self).files_view(),
            ),
    {
        let last_idx = self.segments.len() - 1;
        let serial = {
            let seg = &self.segments[last_idx];
            seg.serial()
        };
        let fresh = SSTableSegment::new(serial);
        let ghost old_segs = old(self).seg_seq();
        self.segments.push(fresh);
        proof {
            lemma_table_map_push_empty(old_segs, fresh);
            let segs = self.seg_seq();
            assert(segs.take(old_segs.len() as int) =~= old_segs);
            assert forall|i: int|
                0 <= i < segs.len() - 1 implies (#[trigger] segs[i]).spec_serial()
                <= segs.last().spec_serial() by {
                if i < old_segs.len() - 1 {
                    assert(segs[i] == old_segs[i]);
                }
            }
        }
        let r = self.write();
        proof {
            assert(self.seg_seq().take(self.seg_seq().len() - 1) =~= old_segs);
        }
        r
    }

    /// Applies a live value to the open segment; when the segment has then
    /// outgrown the limit, seals it and opens a fresh one.
    #[verifier::rlimit(50)]
    pub fn insert_raw(&mut self, key: Vec<u8>, value: Vec<u8>) -> (r: Result<(), StorageError>)
        requires
            old(self).wf(),
            valid_key(key@),
            value@.len() <= u32::MAX,
            old(self).seg_seq().last().spec_serial() < u64::MAX,
            old(self).seg_seq().last().spec_size() + key@.len() + value@.len() <= usize::MAX,
        ensures
            r is Ok,
            insert_post(*old(self), *final(self), key@, value@),
    {
        proof {
            assert(value.deep_view() =~= value@);
        }
        let ghost kv = key@;
        let ghost segs = old(self).seg_seq();
        let ghost grown = old(self).seg_seq().last().size_after_write(key@, Some(value@));
        let last_idx = self.segments.len() - 1;
        let tail = &mut self.segments[last_idx];
        tail.insert(key, Some(value));
        proof {
            let newtail = self.seg_seq().last();
            assert(self.seg_seq() =~= segs.update(last_idx as int, newtail));
            lemma_table_map_update_last(segs, newtail, kv, Some(value@));
            lemma_totals_update_last(segs, newtail);
            lemma_canonical_nonneg(segs.last().view_entries());
            assert(self.seg_seq().take(last_idx as int) =~= segs.take(last_idx as int));
            assert forall|i: int|
                0 <= i < self.seg_seq().len() - 1 implies (#[trigger] self.seg_seq()[i]).spec_serial()
                <= self.seg_seq().last().spec_serial() by {
                assert(self.seg_seq()[i] == segs[i]);
            }
            assert(self.wf());
        }
        let ghost mid = *self;
        let over = {
            let seg = &self.segments[last_idx];
            seg.size() > self.segment_size_limit
        };
        if over {
            let r = self.add_segment();
            proof {
                assert(final(self).seg_seq().take(final(self).seg_seq().len() - 1)
                    =~= segs.update(last_idx as int, final(self).seg_seq()[last_idx as int]));
                assert(final(self).seg_seq().take(last_idx as int) =~= mid.seg_seq().take(
                    last_idx as int,
                ));
                assert(final(self).seg_seq()[last_idx as int] == mid.seg_seq().last());
                lemma_totals_push(mid.seg_seq(), final(self).seg_seq().last());
                assert(canonical_size(final(self).seg_seq().last().view_entries()) == 0);
                assert(insert_post(*old(self), *final(self), key@, value@));
            }
            r
        } else {
            proof {
                assert(insert_post(*old(self), *final(self), key@, value@));
            }
            Ok(())
        }
    }



    /// Applies a live value under a text key.
    pub fn insert(&mut self, key: &str, value: &[u8]) -> (r: Result<(), StorageError>)
        requires
            old(self).wf(),
            forall|i: int| 0 <= i < key.spec_bytes().len() ==> key.spec_bytes()[i] != 0,
            value@.len() <= u32::MAX,
            old(self).seg_seq().last().spec_serial() < u64::MAX,
            old(self).seg_seq().last().spec_size() + key.spec_bytes().len() + value@.len()
                <= usize::MAX,
        ensures
            r is Ok,
            insert_post(*old(self), *final(self), key.spec_bytes(), value@),
    {
        let kb = key.as_bytes_vec();
        proof {
            vstd::utf8::encode_utf8_valid_utf8(key@);
            assert(valid_key(kb@));
        }
        let mut val: Vec<u8> = Vec::new();
        val.extend_from_slice(value);
        proof {
            assert(val@ =~= value@);
        }
        self.insert_raw(kb, val)
    }

    /// Splits merged, strictly sorted entries into a fresh chunk sequence:
    /// each entry goes to the open chunk, which is sealed the moment the
    /// entry pushes its size past the bound, the next chunk continuing the
    /// serial chain.
    #[verifier::loop_isolation(false)]
    #[verifier::rlimit(100)]
    fn rechunk(merged: &SSTableSegment, limit: usize, last_serial: u64) -> (r: Vec<
        SSTableSegment,
    >)
        requires
            merged.wf(),
            canonical_size(merged.view_entries()) <= usize::MAX,
            last_serial + merged.view_entries().len() <= u64::MAX,
        ensures
            r@.len() >= 1,
            forall|j: int| 0 <= j < r@.len() ==> (#[trigger] r@[j]).wf(),
            table_map(r@) == merged.view_map(),
            total_entries(r@) == merged.view_entries().len(),
            r@.last().spec_serial() == last_serial + merged.view_entries().len(),
            forall|j: int|
                0 <= j < r@.len() ==> (#[trigger] r@[j]).spec_serial() >= last_serial,
            forall|j: int|
                0 <= j < r@.len() - 1 ==> (#[trigger] r@[j]).spec_serial() > last_serial,
            forall|a: int, b: int|
                #![trigger r@[a].spec_serial(), r@[b].spec_serial()]
                0 <= a < b < r@.len() - 1 ==> r@[a].spec_serial() < r@[b].spec_serial(),
            forall|j: int|
                0 <= j < r@.len() ==> (#[trigger] r@[j]).spec_serial()
                    <= r@.last().spec_serial(),
            segments_size_canonical(r@),
            segments_key_ordered(r@),
            chunks_closed_by_bound(r@, limit),
    {
        let ghost mes = merged.view_entries();
        let m = merged.entry_count();
        let mut new_segments: Vec<SSTableSegment> = Vec::new();
        new_segments.push(SSTableSegment::new(last_serial));
        proof {
            lemma_table_map_push_empty(Seq::<SSTableSegment>::empty(), new_segments@[0]);
            assert(Seq::<SSTableSegment>::empty().push(new_segments@[0]) =~= new_segments@);
            assert(new_segments@.drop_last() =~= Seq::<SSTableSegment>::empty());
            assert(total_entries(Seq::<SSTableSegment>::empty()) == 0);
            assert(new_segments@[0].view_entries().len() == 0);
            assert(total_entries(new_segments@) == 0);
            assert(canonical_size(Seq::<(Seq<u8>, Option<Seq<u8>>)>::empty()) == 0);
            assert(mes.take(0) =~= Seq::<(Seq<u8>, Option<Seq<u8>>)>::empty());
        }
        let mut i: usize = 0;
        while i < m
            invariant
                0 <= i <= m,
                m == mes.len(),
                mes == merged.view_entries(),
                merged.wf(),
                canonical_size(mes) <= usize::MAX,
                last_serial + mes.len() <= u64::MAX,
                new_segments@.len() >= 1,
                forall|j: int| 0 <= j < new_segments@.len() ==> (#[trigger] new_segments@[j]).wf(),
                table_map(new_segments@) == map_of(mes.take(i as int)),
                new_segments@.last().spec_serial() == last_serial + i,
                forall|a: int, b: int|
                    #![trigger new_segments@[a].spec_serial(), new_segments@[b].spec_serial()]
                    0 <= a < b < new_segments@.len() - 1 ==> new_segments@[a].spec_serial()
                        < new_segments@[b].spec_serial(),
                forall|j: int|
                    0 <= j < new_segments@.len() - 1 ==> last_serial < (
                    #[trigger] new_segments@[j]).spec_serial(),
                forall|j: int|
                    0 <= j < new_segments@.len() ==> (#[trigger] new_segments@[j]).spec_serial()
                        <= new_segments@.last().spec_serial(),
                forall|j: int|
                    0 <= j < new_segments@.len() ==> (#[trigger] new_segments@[j]).spec_serial()
                        >= last_serial,
                new_segments@.last().spec_size() <= canonical_size(mes.take(i as int)),
                total_entries(new_segments@) == i,
                segments_size_canonical(new_segments@),
                segments_key_ordered(new_segments@),
                chunks_closed_by_bound(new_segments@, limit),
                forall|j: int, k: Seq<u8>|
                    #![trigger new_segments@[j].view_map().contains_key(k)]
                    0 <= j < new_segments@.len() && new_segments@[j].view_map().contains_key(k)
                        ==> exists|x: int| 0 <= x < i && (#[trigger] mes[x]).0 == k,
            decreases m - i,
        {
            let (key, value, entry_size) = {
                let e = merged.entry_at(i);
                let klen = e.key.len();
                let vlen = match &e.value {
                    Some(b) => b.len(),
                    None => 0,
                };
                proof {
                    assert(mes.take(i as int + 1).drop_last() =~= mes.take(i as int));
                    assert(mes.take(i as int + 1).last() == mes[i as int]);
                    crate::segment::lemma_canonical_prefix_le(mes, i as int + 1, mes.len() as int);
                    lemma_canonical_nonneg(mes.take(i as int));
                }
                (clone_bytes(&e.key), clone_value(&e.value), klen + vlen)
            };
            let ghost pair = mes[i as int];
            proof {
                assert(entry_size == pair.0.len() + val_len(pair.1));
                // The key is fresh in every chunk built so far, and greater
                // than everything already chunked.
                assert forall|j: int| 0 <= j < i implies (#[trigger] mes.take(i as int)[j]).0
                    != pair.0 by {
                    assert(mes.take(i as int)[j] == mes[j]);
                    crate::keys::lemma_lex_trichotomy(mes[j].0, pair.0);
                }
                lemma_map_of_absent(mes.take(i as int), pair.0);
            }
            let last_idx = new_segments.len() - 1;
            let ghost ns0 = new_segments@;
            proof {
                let tes = ns0.last().view_entries();
                assert forall|j: int| 0 <= j < tes.len() implies lex_lt(
                    (#[trigger] tes[j]).0,
                    pair.0,
                ) by {
                    lemma_map_of_index(tes, j);
                    assert(ns0[last_idx as int].view_map().contains_key(tes[j].0));
                    let x = choose|x: int| 0 <= x < i && (#[trigger] mes[x]).0 == tes[j].0;
                    assert(lex_lt(mes[x].0, mes[i as int].0));
                }
            }
            let tail = &mut new_segments[last_idx];
            tail.insert(key, value);
            proof {
                let newtail = new_segments@.last();
                assert(new_segments@ =~= ns0.update(last_idx as int, newtail));
                lemma_table_map_update_last(ns0, newtail, pair.0, pair.1);
                assert(map_of(mes.take(i as int)).insert(pair.0, pair.1) == map_of(
                    mes.take(i as int + 1),
                )) by {
                    assert(mes.take(i as int + 1).drop_last() =~= mes.take(i as int));
                    assert(mes.take(i as int + 1).last() == pair);
                }
                // The key was absent in the tail chunk, so the entry was
                // appended at its end, size and canonical sum growing by
                // exactly its bytes.
                assert(!ns0.last().view_map().contains_key(pair.0)) by {
                    if ns0.last().view_map().contains_key(pair.0) {
                        assert(table_map(ns0).contains_key(pair.0)) by {
                            assert(ns0.drop_last().push(ns0.last()) =~= ns0);
                        }
                    }
                }
                assert(newtail.view_entries() == ns0.last().view_entries().push(pair));
                assert(newtail.spec_size() == canonical_size(newtail.view_entries())) by {
                    assert(ns0.last().spec_size() == canonical_size(ns0.last().view_entries()));
                }
                assert(total_entries(new_segments@) == i + 1) by {
                    assert(new_segments@.drop_last() =~= ns0.drop_last());
                    assert(total_entries(ns0) == total_entries(ns0.drop_last())
                        + ns0.last().view_entries().len());
                }
                assert forall|j: int, k: Seq<u8>|
                    #![trigger new_segments@[j].view_map().contains_key(k)]
                    0 <= j < new_segments@.len() && new_segments@[j].view_map().contains_key(
                        k,
                    ) implies exists|x: int| 0 <= x < i + 1 && (#[trigger] mes[x]).0 == k by {
                    if j < last_idx as int {
                        assert(new_segments@[j] == ns0[j]);
                        assert(ns0[j].view_map().contains_key(k));
                        let x = choose|x: int| 0 <= x < i && (#[trigger] mes[x]).0 == k;
                        assert(0 <= x < i + 1 && mes[x].0 == k);
                    } else {
                        if k != pair.0 {
                            assert(ns0[j].view_map().contains_key(k));
                            let x = choose|x: int| 0 <= x < i && (#[trigger] mes[x]).0 == k;
                            assert(0 <= x < i + 1 && mes[x].0 == k);
                        } else {
                            assert(mes[i as int].0 == k);
                        }
                    }
                }
                assert forall|a: int, b: int, k1: Seq<u8>, k2: Seq<u8>|
                    #![trigger new_segments@[a].view_map().contains_key(k1), new_segments@[b].view_map().contains_key(k2)]
                    0 <= a < b < new_segments@.len() && new_segments@[a].view_map().contains_key(
                        k1,
                    ) && new_segments@[b].view_map().contains_key(k2) implies lex_lt(k1, k2) by {
                    assert(new_segments@[a] == ns0[a]);
                    if b < last_idx as int {
                        assert(new_segments@[b] == ns0[b]);
                    } else {
                        if k2 == pair.0 {
                            assert(ns0[a].view_map().contains_key(k1));
                            let x = choose|x: int| 0 <= x < i && (#[trigger] mes[x]).0 == k1;
                            assert(lex_lt(mes[x].0, mes[i as int].0));
                        } else {
                            assert(ns0[b].view_map().contains_key(k2));
                        }
                    }
                }
                assert forall|j: int|
                    0 <= j < new_segments@.len() - 1 implies ((
                #[trigger] new_segments@[j]).view_entries().len() > 0 && new_segments@[j].spec_size()
                    + new_segments@[j].view_entries().last().0.len() + val_len(
                    new_segments@[j].view_entries().last().1,
                ) > limit) by {
                    assert(new_segments@[j] == ns0[j]);
                }
            }
            let over = {
                let t = &new_segments[last_idx];
                let ts = t.size();
                entry_size > limit || ts > limit - entry_size
            };
            if over {
                let ts = {
                    let t = &new_segments[last_idx];
                    t.serial()
                };
                let fresh = SSTableSegment::new(ts);
                let ghost ns1 = new_segments@;
                new_segments.push(fresh);
                proof {
                    lemma_table_map_push_empty(ns1, fresh);
                    assert(total_entries(new_segments@) == i + 1) by {
                        assert(new_segments@.drop_last() =~= ns1);
                        assert(fresh.view_entries().len() == 0);
                    }
                    assert forall|j: int|
                        0 <= j < new_segments@.len() implies (
                    #[trigger] new_segments@[j]).spec_serial()
                        <= new_segments@.last().spec_serial() by {
                        if j < ns1.len() {
                            assert(new_segments@[j] == ns1[j]);
                        }
                    }
                    assert(new_segments@.last().spec_size() == 0);
                    assert(canonical_size(mes.take(i as int + 1)) >= 0) by {
                        lemma_canonical_nonneg(mes.take(i as int + 1));
                    }
                    // The chunk just sealed was closed by the rule; the fresh
                    // chunk holds nothing yet.
                    assert(ns1.last().view_entries().last() == pair);
                    assert(ns1.last().spec_size() + entry_size > limit);
                    assert forall|j: int|
                        0 <= j < new_segments@.len() - 1 implies ((
                    #[trigger] new_segments@[j]).view_entries().len() > 0
                        && new_segments@[j].spec_size()
                        + new_segments@[j].view_entries().last().0.len() + val_len(
                        new_segments@[j].view_entries().last().1,
                    ) > limit) by {
                        assert(new_segments@[j] == ns1[j]);
                    }
                    assert(fresh.view_map() =~= Map::<Seq<u8>, Option<Seq<u8>>>::empty());
                    assert forall|j: int, k: Seq<u8>|
                        #![trigger new_segments@[j].view_map().contains_key(k)]
                        0 <= j < new_segments@.len() && new_segments@[j].view_map().contains_key(
                            k,
                        ) implies exists|x: int| 0 <= x < i + 1 && (#[trigger] mes[x]).0 == k by {
                        assert(j < ns1.len());
                        assert(new_segments@[j] == ns1[j]);
                        assert(ns1[j].view_map().contains_key(k));
                    }
                    assert forall|a: int, b: int, k1: Seq<u8>, k2: Seq<u8>|
                        #![trigger new_segments@[a].view_map().contains_key(k1), new_segments@[b].view_map().contains_key(k2)]
                        0 <= a < b < new_segments@.len()
                            && new_segments@[a].view_map().contains_key(k1)
                            && new_segments@[b].view_map().contains_key(k2) implies lex_lt(
                        k1,
                        k2,
                    ) by {
                        assert(new_segments@[a] == ns1[a]);
                        if b < ns1.len() {
                            assert(new_segments@[b] == ns1[b]);
                        }
                    }
                    assert(segments_size_canonical(new_segments@)) by {
                        assert forall|j: int|
                            0 <= j < new_segments@.len() implies (
                        #[trigger] new_segments@[j]).spec_size() == canonical_size(
                            new_segments@[j].view_entries(),
                        ) by {
                            if j < ns1.len() {
                                assert(new_segments@[j] == ns1[j]);
                            } else {
                                assert(new_segments@[j] == fresh);
                                assert(canonical_size(
                                    Seq::<(Seq<u8>, Option<Seq<u8>>)>::empty(),
                                ) == 0);
                            }
                        }
                    }
                }
            } else {
                proof {
                    assert(new_segments@.last().spec_size() <= canonical_size(
                        mes.take(i as int + 1),
                    ));
                }
            }
            i = i + 1;
        }
        proof {
            assert(mes.take(m as int) =~= mes);
        }
        new_segments
    }

    /// Merges all segments into the latest write per key, tombstones kept,
    /// then re-chunks by the size bound into a fresh segment sequence whose
    /// serials continue from the last one.  Reads are unchanged; the on-disk
    /// files the merge supersedes stay untouched.
    #[verifier::loop_isolation(false)]
    #[verifier::rlimit(100)]
    pub fn compact(&mut self)
        requires
            old(self).wf(),
            total_canonical(old(self).seg_seq()) <= usize::MAX,
            old(self).seg_seq().last().spec_serial() + total_entries(old(self).seg_seq())
                <= u64::MAX,
        ensures
            final(self).wf(),
            final(self).view_map() == old(self).view_map(),
            final(self).files_view() == old(self).files_view(),
            final(self).limit_spec() == old(self).limit_spec(),
            final(self).view_map().dom().finite(),
            total_entries(final(self).seg_seq()) == final(self).view_map().dom().len(),
            segments_key_ordered(final(self).seg_seq()),
            segments_size_canonical(final(self).seg_seq()),
            chunks_closed_by_bound(final(self).seg_seq(), old(self).limit_spec()),
            final(self).seg_seq().last().spec_serial() == old(self).seg_seq().last().spec_serial()
                + final(self).view_map().dom().len(),
            forall|j: int|
                0 <= j < final(self).seg_seq().len() ==> (
                #[trigger] final(self).seg_seq()[j]).spec_serial()
                    >= old(self).seg_seq().last().spec_serial(),
    {
        let ghost old_segs = old(self).seg_seq();
        let nsegs = self.segments.len();
        proof {
            assert(old_segs.take(nsegs as int) =~= old_segs);
            assert(old_segs.take(0) =~= Seq::<SSTableSegment>::empty());
        }
        // Merge: newest entry per key wins.
        let mut merged = SSTableSegment::new(0);
        let mut si: usize = 0;
        while si < nsegs
            invariant
                0 <= si <= nsegs,
                self.seg_seq() == old_segs,
                nsegs == old_segs.len(),
                merged.wf(),
                merged.view_map() == table_map(old_segs.take(si as int)),
                merged.spec_serial() == total_entries(old_segs.take(si as int)),
                merged.view_entries().len() <= total_entries(old_segs.take(si as int)),
                merged.spec_size() <= total_canonical(old_segs.take(si as int)),
                canonical_size(merged.view_entries()) <= total_canonical(old_segs.take(si as int)),
            decreases nsegs - si,
        {
            let seg_entries = {
                let sref = &self.segments[si];
                sref.entry_count()
            };
            let ghost ses = old_segs[si as int].view_entries();
            proof {
                assert(old_segs[si as int].wf());
                assert(ses.take(0) =~= Seq::<(Seq<u8>, Option<Seq<u8>>)>::empty());
                lemma_totals_take_step(old_segs, si as int);
            }
            let mut ei: usize = 0;
            while ei < seg_entries
                invariant
                    0 <= ei <= seg_entries,
                    si < nsegs,
                    self.seg_seq() == old_segs,
                    nsegs == old_segs.len(),
                    seg_entries == ses.len(),
                    ses == old_segs[si as int].view_entries(),
                    merged.wf(),
                    merged.view_map() == table_map(old_segs.take(si as int)).union_prefer_right(
                        map_of(ses.take(ei as int)),
                    ),
                    merged.spec_serial() == total_entries(old_segs.take(si as int)) + ei,
                    merged.view_entries().len() <= total_entries(old_segs.take(si as int)) + ei,
                    merged.spec_size() <= total_canonical(old_segs.take(si as int))
                        + canonical_size(ses.take(ei as int)),
                    canonical_size(merged.view_entries()) <= total_canonical(
                        old_segs.take(si as int),
                    ) + canonical_size(ses.take(ei as int)),
                decreases seg_entries - ei,
            {
                let (key, value) = {
                    let sref = &self.segments[si];
                    let e = sref.entry_at(ei);
                    (clone_bytes(&e.key), clone_value(&e.value))
                };
                let ghost pair = ses[ei as int];
                proof {
                    assert(ses.take(ei as int + 1).drop_last() =~= ses.take(ei as int));
                    assert(ses.take(ei as int + 1).last() == pair);
                    lemma_canonical_nonneg(ses.take(ei as int));
                    lemma_totals_take_le(old_segs, si as int + 1, nsegs as int);
                    assert(canonical_size(ses.take(ei as int + 1)) <= canonical_size(ses)) by {
                        crate::segment::lemma_canonical_prefix_le(ses, ei as int + 1, ses.len() as int);
                    }
                    assert(total_entries(old_segs.take(si as int)) + ei + 1 <= total_entries(
                        old_segs.take(si as int + 1),
                    ));
                }
                let ghost m0 = merged.view_map();
                merged.insert(key, value);
                proof {
                    lemma_union_insert_right(
                        table_map(old_segs.take(si as int)),
                        map_of(ses.take(ei as int)),
                        pair.0,
                        pair.1,
                    );
                }
                ei = ei + 1;
            }
            proof {
                assert(ses.take(seg_entries as int) =~= ses);
                assert(old_segs.take(si as int + 1).drop_last() =~= old_segs.take(si as int));
                assert(old_segs.take(si as int + 1).last() == old_segs[si as int]);
            }
            si = si + 1;
        }
        let ghost mes = merged.view_entries();
        proof {
            assert(merged.view_map() == table_map(old_segs));
            assert(mes.take(0) =~= Seq::<(Seq<u8>, Option<Seq<u8>>)>::empty());
            lemma_canonical_nonneg(mes);
        }
        // Re-chunk by the size bound, serials continuing from the tail.
        let last_serial = {
            let i = self.segments.len() - 1;
            let sref = &self.segments[i];
            sref.serial()
        };
        let limit = self.segment_size_limit;
        proof {
            assert(merged.view_entries().len() <= total_entries(old_segs)) by {
                assert(old_segs.take(old_segs.len() as int) =~= old_segs);
            }
            assert(canonical_size(mes) <= total_canonical(old_segs)) by {
                assert(old_segs.take(old_segs.len() as int) =~= old_segs);
            }
        }
        let new_segments = Self::rechunk(&merged, limit, last_serial);
        proof {
            crate::segment::lemma_map_of_dom_len(mes);
        }
        self.segments = new_segments;
        proof {
            let segs = self.seg_seq();
            let fs = self.files_view();
            assert(self.view_map() == old(self).view_map());
            assert(self.fmax() <= last_serial) by {
                assert(old(self).fmax() <= old_segs.last().spec_serial());
            }
            assert forall|j: int|
                0 <= j < segs.len() - 1 implies has_file(fs, (#[trigger] segs[j]).spec_serial())
                || (#[trigger] segs[j]).spec_serial() > self.fmax() by {
                assert(segs[j].spec_serial() > last_serial);
            }
        }
    }

    /// Applies a tombstone to the open segment.  A tombstone never triggers
    /// rotation: only an insert checks the size bound.
    pub fn delete_raw(&mut self, key: Vec<u8>)
        requires
            old(self).wf(),
            valid_key(key@),
            old(self).seg_seq().last().spec_serial() < u64::MAX,
        ensures
            delete_post(*old(self), *final(self), key@),
    {
        let ghost kv = key@;
        let ghost segs = old(self).seg_seq();
        let last_idx = self.segments.len() - 1;
        let tail = &mut self.segments[last_idx];
        tail.delete(key);
        proof {
            let newtail = self.seg_seq().last();
            assert(self.seg_seq() =~= segs.update(last_idx as int, newtail));
            lemma_table_map_update_last(segs, newtail, kv, None);
            lemma_totals_update_last(segs, newtail);
            lemma_canonical_nonneg(segs.last().view_entries());
            assert(self.seg_seq().take(last_idx as int) =~= segs.take(last_idx as int));
            assert forall|i: int|
                0 <= i < self.seg_seq().len() - 1 implies (#[trigger] self.seg_seq()[i]).spec_serial()
                <= self.seg_seq().last().spec_serial() by {
                assert(self.seg_seq()[i] == segs[i]);
            }
            assert(delete_post(*old(self), *final(self), key@));
        }
    }

    /// Applies a tombstone under a text key.
    pub fn delete(&mut self, key: &str)
        requires
            old(self).wf(),
            forall|i: int| 0 <= i < key.spec_bytes().len() ==> key.spec_bytes()[i] != 0,
            old(self).seg_seq().last().spec_serial() < u64::MAX,
        ensures
            delete_post(*old(self), *final(self), key.spec_bytes()),
    {
        let kb = key.as_bytes_vec();
        proof {
            vstd::utf8::encode_utf8_valid_utf8(key@);
            assert(valid_key(kb@));
        }
        self.delete_raw(kb)
    }
}

} // verus!
